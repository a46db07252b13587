use vstd::prelude::*;
use crate::bytes::{bytes_eq, copy_bytes, views};
use crate::config::StorageConfig;
use crate::graph::{cid_set, find, lemma_remove_unreachable, reachable, stored, unique_cids, walk, StoredBlock};

verus! {

/// A block handed to the store: its identifier, its bytes, and the
/// identifiers its payload references.
#[derive(Clone, Debug, PartialEq, Eq)]
pub struct Block {
    pub cid: Vec<u8>,
    pub data: Vec<u8>,
    pub refs: Vec<Vec<u8>>,
}

/// What the store reports to its listeners.
#[derive(Clone, Debug, PartialEq, Eq)]
pub enum StorageEvent {
    /// The block with this identifier was deleted.
    Remove(Vec<u8>),
}

/// The identifier an event speaks of.
pub open spec fn event_cid(e: StorageEvent) -> Seq<u8> {
    match e {
        StorageEvent::Remove(c) => c@,
    }
}

/// A handle on a temporary pin. Releasing it lifts the protection.
pub struct TempPin {
    pub handle: u64,
}

/// A named root: the alias `name` protects `target` and what it references.
pub struct AliasEntry {
    pub name: Vec<u8>,
    pub target: Vec<u8>,
}

/// One identifier protected by the temporary pin `handle`.
pub struct PinEntry {
    pub handle: u64,
    pub cid: Vec<u8>,
}

/// Counts over the stored blocks.
#[derive(Clone, Copy, Debug, PartialEq, Eq, Structural)]
pub struct StoreStats {
    pub count: u64,
    pub size: u64,
}

/// The block store with its alias table, temporary pins and collector.
pub struct StorageService {
    pub blocks: Vec<StoredBlock>,
    pub aliases: Vec<AliasEntry>,
    pub pins: Vec<PinEntry>,
    pub events: Vec<StorageEvent>,
    pub clock: u64,
    pub next_pin: u64,
    pub total_bytes: u64,
    pub cache_size_blocks: u64,
    pub cache_size_bytes: u64,
    pub gc_min_blocks: usize,
}

/// The sum of a sequence of sizes.
pub open spec fn sum(s: Seq<nat>) -> nat
    decreases s.len(),
{
    if s.len() == 0 {
        0
    } else {
        sum(s.drop_last()) + s.last()
    }
}

/// The size of each block's bytes.
pub open spec fn data_lens(bs: Seq<StoredBlock>) -> Seq<nat> {
    bs.map_values(|b: StoredBlock| b.data.len() as nat)
}

/// The total size of the blocks' bytes.
pub open spec fn total_size(bs: Seq<StoredBlock>) -> nat {
    sum(data_lens(bs))
}

/// The target the alias table gives `name`, if any.
pub open spec fn resolves(aliases: Seq<AliasEntry>, name: Seq<u8>) -> Option<Seq<u8>> {
    if exists|i: int| 0 <= i < aliases.len() && #[trigger] aliases[i].name@ == name {
        let i = choose|i: int| 0 <= i < aliases.len() && #[trigger] aliases[i].name@ == name;
        Some(aliases[i].target@)
    } else {
        None
    }
}

/// The alias targets followed by the identifiers held by temporary pins.
pub open spec fn root_seq(aliases: Seq<AliasEntry>, pins: Seq<PinEntry>) -> Seq<Seq<u8>> {
    aliases.map_values(|a: AliasEntry| a.target@) + pins.map_values(|p: PinEntry| p.cid@)
}

/// Each pin entry as its handle and identifier.
pub open spec fn pin_view(pins: Seq<PinEntry>) -> Seq<(u64, Seq<u8>)> {
    pins.map_values(|p: PinEntry| (p.handle, p.cid@))
}

/// `bs2` is `bs` with the block at `i` last accessed at tick `t`.
pub open spec fn touched(bs: Seq<StoredBlock>, bs2: Seq<StoredBlock>, i: int, t: u64) -> bool {
    &&& 0 <= i < bs.len()
    &&& bs2.len() == bs.len()
    &&& forall|j: int| 0 <= j < bs.len() && j != i ==> #[trigger] bs2[j] == bs[j]
    &&& bs2[i].cid == bs[i].cid
    &&& bs2[i].data == bs[i].data
    &&& bs2[i].refs == bs[i].refs
    &&& bs2[i].last_access == t
}

/// The single identifier `c`, as a list.
fn single(c: &Vec<u8>) -> (r: Vec<Vec<u8>>)
    ensures
        cid_set(r@) == Set::<Seq<u8>>::empty().insert(c@),
{
    let mut r: Vec<Vec<u8>> = Vec::new();
    r.push(copy_bytes(c));
    assert(views(r@) =~= seq![c@]);
    assert(cid_set(r@) =~= Set::<Seq<u8>>::empty().insert(c@)) by {
        assert(views(r@)[0] == c@);
    }
    r
}

proof fn lemma_sum_remove(s: Seq<nat>, i: int)
    requires
        0 <= i < s.len(),
    ensures
        sum(s.remove(i)) + s[i] == sum(s),
    decreases s.len(),
{
    if i == s.len() - 1 {
        assert(s.remove(i) =~= s.drop_last());
    } else {
        assert(s.remove(i).drop_last() =~= s.drop_last().remove(i));
        lemma_sum_remove(s.drop_last(), i);
    }
}

/// The bytes stored under identifier `c`, if a block with it is stored.
pub open spec fn data_of(bs: Seq<StoredBlock>, c: Seq<u8>) -> Option<Seq<u8>> {
    if stored(bs, c) {
        let i = choose|i: int| 0 <= i < bs.len() && #[trigger] bs[i].cid@ == c;
        Some(bs[i].data@)
    } else {
        None
    }
}

proof fn lemma_data_of_at(bs: Seq<StoredBlock>, i: int)
    requires
        unique_cids(bs),
        0 <= i < bs.len(),
    ensures
        data_of(bs, bs[i].cid@) == Some(bs[i].data@),
{
    assert(stored(bs, bs[i].cid@));
    let k = choose|k: int| 0 <= k < bs.len() && #[trigger] bs[k].cid@ == bs[i].cid@;
    assert(k == i);
}

proof fn lemma_sum_push(s: Seq<nat>, x: nat)
    ensures
        sum(s.push(x)) == sum(s) + x,
{
    assert(s.push(x).drop_last() =~= s);
}

/// Distinct blocks were last accessed at distinct ticks.
pub open spec fn distinct_stamps(bs: Seq<StoredBlock>) -> bool {
    forall|i: int, j: int|
        0 <= i < bs.len() && 0 <= j < bs.len() && i != j
            ==> #[trigger] bs[i].last_access != #[trigger] bs[j].last_access
}

/// The blocks `cur` are blocks of `ob`, and hold every block of `ob` that is
/// reachable from `roots`.
#[verifier::opaque]
pub open spec fn kept(ob: Seq<StoredBlock>, roots: Set<Seq<u8>>, cur: Seq<StoredBlock>) -> bool {
    &&& forall|i: int| 0 <= i < cur.len() ==> ob.contains(#[trigger] cur[i])
    &&& forall|j: int| 0 <= j < ob.len() && reachable(ob, roots, #[trigger] ob[j].cid@) ==> cur.contains(ob[j])
}

/// Each event of `ev` past `oe` reports a block of `ob` that was not
/// reachable, is no longer stored, and is older than every unreachable block
/// of `cur`; the last was deleted while the blocks exceeded the budget.
#[verifier::opaque]
pub open spec fn reported(
    ob: Seq<StoredBlock>,
    oe: Seq<StorageEvent>,
    roots: Set<Seq<u8>>,
    cur: Seq<StoredBlock>,
    ev: Seq<StorageEvent>,
    cap_blocks: u64,
    cap_bytes: u64,
) -> bool {
    &&& forall|k: int|
        oe.len() <= k < ev.len() ==> exists|j: int|
            0 <= j < ob.len() && #[trigger] ob[j].cid@ == event_cid(#[trigger] ev[k]) && !reachable(ob, roots, ob[j].cid@)
                && !stored(cur, ob[j].cid@) && forall|i: int|
                0 <= i < cur.len() && !reachable(cur, roots, cur[i].cid@) ==> ob[j].last_access
                    < #[trigger] cur[i].last_access
    &&& ev.len() > oe.len() ==> exists|j: int|
        0 <= j < ob.len() && #[trigger] ob[j].cid@ == event_cid(ev.last()) && (cur.len() + 1 > cap_blocks
            || total_size(cur) + ob[j].data.len() > cap_bytes)
}

/// What a collection that started from blocks `ob` and events `oe` has done
/// when it holds blocks `cur` and events `ev`: it kept a subset of the blocks,
/// every reachable one among them, and reported each block it deleted.
pub open spec fn gc_trace(
    ob: Seq<StoredBlock>,
    oe: Seq<StorageEvent>,
    roots: Set<Seq<u8>>,
    cur: Seq<StoredBlock>,
    ev: Seq<StorageEvent>,
    cap_blocks: u64,
    cap_bytes: u64,
) -> bool {
    &&& ev.len() >= oe.len()
    &&& cur.len() + ev.len() == ob.len() + oe.len()
    &&& forall|k: int| 0 <= k < oe.len() ==> #[trigger] ev[k] == oe[k]
    &&& ev.len() == oe.len() ==> cur == ob
    &&& kept(ob, roots, cur)
    &&& reported(ob, oe, roots, cur, ev, cap_blocks, cap_bytes)
}

proof fn lemma_trace_start(
    ob: Seq<StoredBlock>,
    oe: Seq<StorageEvent>,
    roots: Set<Seq<u8>>,
    cap_blocks: u64,
    cap_bytes: u64,
)
    ensures
        gc_trace(ob, oe, roots, ob, oe, cap_blocks, cap_bytes),
{
    reveal(kept);
    reveal(reported);
    assert(kept(ob, roots, ob));
    assert(reported(ob, oe, roots, ob, oe, cap_blocks, cap_bytes));
}

#[verifier::rlimit(50)]
proof fn lemma_trace_compose(
    ob: Seq<StoredBlock>,
    oe: Seq<StorageEvent>,
    roots: Set<Seq<u8>>,
    mb: Seq<StoredBlock>,
    me: Seq<StorageEvent>,
    cur: Seq<StoredBlock>,
    ev: Seq<StorageEvent>,
    cap_blocks: u64,
    cap_bytes: u64,
)
    requires
        gc_trace(ob, oe, roots, mb, me, cap_blocks, cap_bytes),
        gc_trace(mb, me, roots, cur, ev, cap_blocks, cap_bytes),
        forall|c: Seq<u8>| #[trigger] reachable(mb, roots, c) == reachable(ob, roots, c),
        forall|c: Seq<u8>| #[trigger] reachable(cur, roots, c) == reachable(ob, roots, c),
    ensures
        gc_trace(ob, oe, roots, cur, ev, cap_blocks, cap_bytes),
{
    reveal(kept);
    reveal(reported);
    assert forall|k: int| 0 <= k < oe.len() implies #[trigger] ev[k] == oe[k] by {
        assert(ev[k] == me[k]);
    }
    assert forall|i: int| 0 <= i < cur.len() implies ob.contains(#[trigger] cur[i]) by {
        assert(mb.contains(cur[i]));
        let j = choose|j: int| 0 <= j < mb.len() && mb[j] == cur[i];
        assert(ob.contains(mb[j]));
    }
    assert forall|j: int| 0 <= j < ob.len() && reachable(ob, roots, #[trigger] ob[j].cid@) implies cur.contains(ob[j]) by {
        assert(mb.contains(ob[j]));
        let i = choose|i: int| 0 <= i < mb.len() && mb[i] == ob[j];
        assert(reachable(mb, roots, mb[i].cid@));
    }
    assert forall|k: int| oe.len() <= k < ev.len() implies exists|j: int|
        0 <= j < ob.len() && #[trigger] ob[j].cid@ == event_cid(#[trigger] ev[k]) && !reachable(ob, roots, ob[j].cid@)
            && !stored(cur, ob[j].cid@) && forall|i: int|
            0 <= i < cur.len() && !reachable(cur, roots, cur[i].cid@) ==> ob[j].last_access
                < #[trigger] cur[i].last_access by {
        if k < me.len() {
            assert(ev[k] == me[k]);
            let j = choose|j: int|
                0 <= j < ob.len() && #[trigger] ob[j].cid@ == event_cid(#[trigger] me[k]) && !reachable(ob, roots, ob[j].cid@)
                    && !stored(mb, ob[j].cid@) && forall|i: int|
                    0 <= i < mb.len() && !reachable(mb, roots, mb[i].cid@) ==> ob[j].last_access
                        < #[trigger] mb[i].last_access;
            assert(!stored(cur, ob[j].cid@)) by {
                if stored(cur, ob[j].cid@) {
                    let i = choose|i: int| 0 <= i < cur.len() && #[trigger] cur[i].cid@ == ob[j].cid@;
                    assert(mb.contains(cur[i]));
                    let i2 = choose|i2: int| 0 <= i2 < mb.len() && mb[i2] == cur[i];
                    assert(mb[i2].cid@ == ob[j].cid@);
                }
            }
            assert forall|i: int| 0 <= i < cur.len() && !reachable(cur, roots, cur[i].cid@)
                implies ob[j].last_access < #[trigger] cur[i].last_access by {
                assert(mb.contains(cur[i]));
                let i2 = choose|i2: int| 0 <= i2 < mb.len() && mb[i2] == cur[i];
                assert(mb[i2].last_access == cur[i].last_access);
            }
        } else {
            let j = choose|j: int|
                0 <= j < mb.len() && #[trigger] mb[j].cid@ == event_cid(#[trigger] ev[k]) && !reachable(mb, roots, mb[j].cid@)
                    && !stored(cur, mb[j].cid@) && forall|i: int|
                    0 <= i < cur.len() && !reachable(cur, roots, cur[i].cid@) ==> mb[j].last_access
                        < #[trigger] cur[i].last_access;
            assert(ob.contains(mb[j]));
            let j2 = choose|j2: int| 0 <= j2 < ob.len() && ob[j2] == mb[j];
            assert(ob[j2].cid@ == event_cid(ev[k]));
        }
    }
    if ev.len() > oe.len() {
        if ev.len() > me.len() {
            let j = choose|j: int|
                0 <= j < mb.len() && #[trigger] mb[j].cid@ == event_cid(ev.last()) && (cur.len() + 1 > cap_blocks
                    || total_size(cur) + mb[j].data.len() > cap_bytes);
            assert(ob.contains(mb[j]));
            let j2 = choose|j2: int| 0 <= j2 < ob.len() && ob[j2] == mb[j];
            assert(ob[j2].cid@ == event_cid(ev.last()));
        } else {
            assert(cur == mb);
            assert(ev =~= me);
        }
    }
}

proof fn lemma_kept_step(ob: Seq<StoredBlock>, roots: Set<Seq<u8>>, prev: Seq<StoredBlock>, m: int)
    requires
        kept(ob, roots, prev),
        0 <= m < prev.len(),
        forall|c: Seq<u8>| #[trigger] reachable(prev, roots, c) == reachable(ob, roots, c),
        !reachable(prev, roots, prev[m].cid@),
    ensures
        kept(ob, roots, prev.remove(m)),
{
    reveal(kept);
    let cur = prev.remove(m);
    assert forall|k: int| 0 <= k < cur.len() implies #[trigger] cur[k] == prev[if k < m { k } else { k + 1 }] by {}
    assert forall|i: int| 0 <= i < cur.len() implies ob.contains(#[trigger] cur[i]) by {
        let i2 = if i < m { i } else { i + 1 };
        assert(cur[i] == prev[i2]);
        assert(ob.contains(prev[i2]));
    }
    assert forall|j: int| 0 <= j < ob.len() && reachable(ob, roots, #[trigger] ob[j].cid@)
        implies cur.contains(ob[j]) by {
        assert(prev.contains(ob[j]));
        let i2 = choose|i: int| 0 <= i < prev.len() && prev[i] == ob[j];
        assert(i2 != m);
        let i3 = if i2 < m { i2 } else { i2 - 1 };
        assert(cur[i3] == ob[j]);
    }
}

#[verifier::rlimit(50)]
proof fn lemma_reported_step(
    ob: Seq<StoredBlock>,
    oe: Seq<StorageEvent>,
    roots: Set<Seq<u8>>,
    prev: Seq<StoredBlock>,
    pe: Seq<StorageEvent>,
    cap_blocks: u64,
    cap_bytes: u64,
    m: int,
    jm: int,
)
    requires
        reported(ob, oe, roots, prev, pe, cap_blocks, cap_bytes),
        pe.len() >= oe.len(),
        unique_cids(prev),
        distinct_stamps(prev),
        forall|c: Seq<u8>| #[trigger] reachable(prev.remove(m), roots, c) == reachable(prev, roots, c),
        forall|c: Seq<u8>| #[trigger] reachable(prev, roots, c) == reachable(ob, roots, c),
        0 <= m < prev.len(),
        0 <= jm < ob.len(),
        prev[m] == ob[jm],
        !reachable(prev, roots, prev[m].cid@),
        forall|i: int|
            0 <= i < prev.len() && !reachable(prev, roots, prev[i].cid@) ==> prev[m].last_access
                <= #[trigger] prev[i].last_access,
        prev.len() > cap_blocks || total_size(prev) > cap_bytes,
        total_size(prev.remove(m)) + prev[m].data.len() == total_size(prev),
    ensures
        reported(ob, oe, roots, prev.remove(m), pe.push(StorageEvent::Remove(prev[m].cid)), cap_blocks, cap_bytes),
{
    reveal(reported);
    let cur = prev.remove(m);
    let ev = pe.push(StorageEvent::Remove(prev[m].cid));
    assert forall|k: int| 0 <= k < cur.len() implies #[trigger] cur[k] == prev[if k < m { k } else { k + 1 }] by {}
    assert(event_cid(ev.last()) == ob[jm].cid@);
    assert forall|k: int| oe.len() <= k < ev.len() implies exists|j: int|
        0 <= j < ob.len() && #[trigger] ob[j].cid@ == event_cid(#[trigger] ev[k])
            && !reachable(ob, roots, ob[j].cid@)
            && !stored(cur, ob[j].cid@)
            && forall|i: int| 0 <= i < cur.len() && !reachable(cur, roots, cur[i].cid@)
                ==> ob[j].last_access < #[trigger] cur[i].last_access by {
        let j = if k == ev.len() - 1 {
            jm
        } else {
            assert(ev[k] == pe[k]);
            choose|j: int|
                0 <= j < ob.len() && #[trigger] ob[j].cid@ == event_cid(#[trigger] pe[k])
                    && !reachable(ob, roots, ob[j].cid@)
                    && !stored(prev, ob[j].cid@)
                    && forall|i: int| 0 <= i < prev.len() && !reachable(prev, roots, prev[i].cid@)
                        ==> ob[j].last_access < #[trigger] prev[i].last_access
        };
        assert(ob[j].cid@ == event_cid(ev[k]));
        assert(!stored(cur, ob[j].cid@)) by {
            if stored(cur, ob[j].cid@) {
                let i = choose|i: int| 0 <= i < cur.len() && #[trigger] cur[i].cid@ == ob[j].cid@;
                let i2 = if i < m { i } else { i + 1 };
                assert(prev[i2].cid@ == ob[j].cid@);
            }
        }
        assert forall|i: int| 0 <= i < cur.len() && !reachable(cur, roots, cur[i].cid@)
            implies ob[j].last_access < #[trigger] cur[i].last_access by {
            let i2 = if i < m { i } else { i + 1 };
            assert(cur[i] == prev[i2]);
            if k == ev.len() - 1 {
                assert(prev[m].last_access <= prev[i2].last_access);
                assert(prev[m].last_access != prev[i2].last_access);
            }
        }
    }
}

proof fn lemma_trace_step(
    ob: Seq<StoredBlock>,
    oe: Seq<StorageEvent>,
    roots: Set<Seq<u8>>,
    prev: Seq<StoredBlock>,
    pe: Seq<StorageEvent>,
    cap_blocks: u64,
    cap_bytes: u64,
    m: int,
)
    requires
        gc_trace(ob, oe, roots, prev, pe, cap_blocks, cap_bytes),
        unique_cids(prev),
        distinct_stamps(prev),
        forall|c: Seq<u8>| #[trigger] reachable(prev, roots, c) == reachable(ob, roots, c),
        0 <= m < prev.len(),
        !reachable(prev, roots, prev[m].cid@),
        forall|i: int|
            0 <= i < prev.len() && !reachable(prev, roots, prev[i].cid@) ==> prev[m].last_access
                <= #[trigger] prev[i].last_access,
        prev.len() > cap_blocks || total_size(prev) > cap_bytes,
    ensures
        gc_trace(ob, oe, roots, prev.remove(m), pe.push(StorageEvent::Remove(prev[m].cid)), cap_blocks, cap_bytes),
        unique_cids(prev.remove(m)),
        distinct_stamps(prev.remove(m)),
        forall|c: Seq<u8>| #[trigger] reachable(prev.remove(m), roots, c) == reachable(ob, roots, c),
        total_size(prev.remove(m)) + prev[m].data.len() == total_size(prev),
{
    let cur = prev.remove(m);
    let ev = pe.push(StorageEvent::Remove(prev[m].cid));
    lemma_remove_unreachable(prev, roots, m);
    lemma_sum_remove(data_lens(prev), m);
    assert(data_lens(cur) =~= data_lens(prev).remove(m));
    assert forall|k: int| 0 <= k < cur.len() implies #[trigger] cur[k] == prev[if k < m { k } else { k + 1 }] by {}
    assert(ob.contains(prev[m])) by {
        reveal(kept);
    }
    let jm = choose|j: int| 0 <= j < ob.len() && ob[j] == prev[m];
    lemma_kept_step(ob, roots, prev, m);
    lemma_reported_step(ob, oe, roots, prev, pe, cap_blocks, cap_bytes, m, jm);
    assert forall|a: int, c: int|
        0 <= a < cur.len() && 0 <= c < cur.len() && a != c
        implies #[trigger] cur[a].last_access != #[trigger] cur[c].last_access by {
        let a2 = if a < m { a } else { a + 1 };
        let c2 = if c < m { c } else { c + 1 };
        assert(prev[a2].last_access != prev[c2].last_access);
    }
    assert forall|k: int| 0 <= k < oe.len() implies #[trigger] ev[k] == oe[k] by {
        assert(ev[k] == pe[k]);
    }
}

impl StorageService {
    /// The roots of the collector: every alias target and every pinned identifier.
    pub open spec fn roots(&self) -> Set<Seq<u8>> {
        Set::new(|c: Seq<u8>| root_seq(self.aliases@, self.pins@).contains(c))
    }

    /// `c` is protected: reachable from an alias or a temporary pin.
    pub open spec fn protected(&self, c: Seq<u8>) -> bool {
        reachable(self.blocks@, self.roots(), c)
    }

    pub open spec fn wf(&self) -> bool {
        &&& unique_cids(self.blocks@)
        &&& forall|i: int| 0 <= i < self.blocks.len() ==> #[trigger] self.blocks@[i].last_access < self.clock
        &&& forall|i: int, j: int|
            0 <= i < self.blocks.len() && 0 <= j < self.blocks.len() && i != j
                ==> #[trigger] self.blocks@[i].last_access != #[trigger] self.blocks@[j].last_access
        &&& self.total_bytes == total_size(self.blocks@)
        &&& forall|i: int, j: int|
            0 <= i < self.aliases.len() && 0 <= j < self.aliases.len()
                && #[trigger] self.aliases@[i].name@ == #[trigger] self.aliases@[j].name@ ==> i == j
        &&& forall|i: int| 0 <= i < self.pins.len() ==> #[trigger] self.pins@[i].handle < self.next_pin
    }

    /// Opens an empty store configured by `config`.
    pub fn open(config: StorageConfig) -> (r: StorageService)
        ensures
            r.wf(),
            r.blocks.len() == 0,
            r.aliases.len() == 0,
            r.pins.len() == 0,
            r.events.len() == 0,
            r.clock == 0,
            r.next_pin == 0,
            r.cache_size_blocks == config.cache_size_blocks,
            r.cache_size_bytes == config.cache_size_bytes,
            r.gc_min_blocks == config.gc_min_blocks,
    {
        let r = StorageService {
            blocks: Vec::new(),
            aliases: Vec::new(),
            pins: Vec::new(),
            events: Vec::new(),
            clock: 0,
            next_pin: 0,
            total_bytes: 0,
            cache_size_blocks: config.cache_size_blocks,
            cache_size_bytes: config.cache_size_bytes,
            gc_min_blocks: config.gc_min_blocks,
        };
        assert(data_lens(r.blocks@) =~= Seq::<nat>::empty());
        r
    }

    /// Whether a block with identifier `cid` is stored.
    pub fn contains(&self, cid: &Vec<u8>) -> (r: bool)
        ensures
            r == stored(self.blocks@, cid@),
    {
        find(&self.blocks, cid).is_some()
    }

    /// The identifiers of all stored blocks, in storage order.
    pub fn iter(&self) -> (r: Vec<Vec<u8>>)
        ensures
            views(r@) == self.blocks@.map_values(|b: StoredBlock| b.cid@),
    {
        let mut r: Vec<Vec<u8>> = Vec::new();
        let mut i: usize = 0;
        while i < self.blocks.len()
            invariant
                i <= self.blocks.len(),
                views(r@) == self.blocks@.subrange(0, i as int).map_values(|b: StoredBlock| b.cid@),
            decreases self.blocks.len() - i,
        {
            let ghost before = r@;
            r.push(copy_bytes(&self.blocks[i].cid));
            assert(views(r@) =~= views(before).push(self.blocks@[i as int].cid@));
            i = i + 1;
            assert(views(r@) =~= self.blocks@.subrange(0, i as int).map_values(|b: StoredBlock| b.cid@));
        }
        assert(self.blocks@.subrange(0, i as int) =~= self.blocks@);
        r
    }

    /// The number of stored blocks and their total size.
    pub fn stats(&self) -> (r: StoreStats)
        requires
            self.wf(),
        ensures
            r.count == self.blocks.len(),
            r.size == total_size(self.blocks@),
    {
        StoreStats { count: self.blocks.len() as u64, size: self.total_bytes }
    }

    /// Marks the block at `i` as accessed now.
    fn touch(&mut self, i: usize)
        requires
            old(self).wf(),
            i < old(self).blocks.len(),
            old(self).clock < u64::MAX,
        ensures
            final(self).wf(),
            touched(old(self).blocks@, final(self).blocks@, i as int, old(self).clock),
            final(self).clock == old(self).clock + 1,
            final(self).aliases == old(self).aliases,
            final(self).pins == old(self).pins,
            final(self).events == old(self).events,
            final(self).next_pin == old(self).next_pin,
            final(self).cache_size_blocks == old(self).cache_size_blocks,
            final(self).cache_size_bytes == old(self).cache_size_bytes,
            final(self).gc_min_blocks == old(self).gc_min_blocks,
    {
        let ghost bs = self.blocks@;
        let mut b = self.blocks.remove(i);
        b.last_access = self.clock;
        self.blocks.insert(i, b);
        self.clock = self.clock + 1;
        assert forall|j: int| 0 <= j < bs.len() && j != i implies #[trigger] self.blocks@[j] == bs[j] by {
            if j < i {
                assert(self.blocks@[j] == bs.remove(i as int)[j]);
            } else {
                assert(self.blocks@[j] == bs.remove(i as int)[j - 1]);
            }
        }
        assert(data_lens(self.blocks@) =~= data_lens(bs));
        assert(forall|j: int| 0 <= j < bs.len() ==> #[trigger] self.blocks@[j].cid@ == bs[j].cid@);
    }

    /// The bytes of the block `cid`, if it is stored; reading it refreshes
    /// its last access.
    pub fn get(&mut self, cid: &Vec<u8>) -> (r: Option<Vec<u8>>)
        requires
            old(self).wf(),
            old(self).clock < u64::MAX,
        ensures
            final(self).wf(),
            r is Some <==> stored(old(self).blocks@, cid@),
            match r {
                Some(d) => data_of(old(self).blocks@, cid@) == Some(d@),
                None => data_of(old(self).blocks@, cid@) is None,
            },
            match r {
                Some(d) => exists|i: int|
                    0 <= i < old(self).blocks.len() && old(self).blocks@[i].cid@ == cid@
                        && d@ == old(self).blocks@[i].data@
                        && touched(old(self).blocks@, final(self).blocks@, i, old(self).clock),
                None => final(self).blocks == old(self).blocks,
            },
            final(self).aliases == old(self).aliases,
            final(self).pins == old(self).pins,
            final(self).events == old(self).events,
            final(self).next_pin == old(self).next_pin,
            final(self).cache_size_blocks == old(self).cache_size_blocks,
            final(self).cache_size_bytes == old(self).cache_size_bytes,
            final(self).gc_min_blocks == old(self).gc_min_blocks,
    {
        match find(&self.blocks, cid) {
            Some(i) => {
                let d = copy_bytes(&self.blocks[i].data);
                proof {
                    lemma_data_of_at(self.blocks@, i as int);
                }
                self.touch(i);
                Some(d)
            },
            None => None,
        }
    }

    /// Stores `block`, or refreshes its last access if it is already stored.
    /// With `pin`, the block's identifier is also added to that temporary pin.
    pub fn insert(&mut self, block: Block, pin: Option<&TempPin>)
        requires
            old(self).wf(),
            old(self).clock < u64::MAX,
            old(self).total_bytes + block.data.len() <= u64::MAX,
            match pin {
                Some(p) => p.handle < old(self).next_pin,
                None => true,
            },
        ensures
            final(self).wf(),
            data_of(final(self).blocks@, block.cid@) == if stored(old(self).blocks@, block.cid@) {
                data_of(old(self).blocks@, block.cid@)
            } else {
                Some(block.data@)
            },
            stored(old(self).blocks@, block.cid@) ==> exists|i: int|
                0 <= i < old(self).blocks.len() && old(self).blocks@[i].cid@ == block.cid@
                    && touched(old(self).blocks@, final(self).blocks@, i, old(self).clock),
            !stored(old(self).blocks@, block.cid@) ==> {
                &&& final(self).blocks.len() == old(self).blocks.len() + 1
                &&& final(self).blocks@.drop_last() == old(self).blocks@
                &&& final(self).blocks@.last().cid@ == block.cid@
                &&& final(self).blocks@.last().data@ == block.data@
                &&& views(final(self).blocks@.last().refs@) == views(block.refs@)
                &&& final(self).blocks@.last().last_access == old(self).clock
            },
            match pin {
                Some(p) => pin_view(final(self).pins@) == pin_view(old(self).pins@).push((p.handle, block.cid@)),
                None => final(self).pins == old(self).pins,
            },
            final(self).clock == old(self).clock + 1,
            final(self).aliases == old(self).aliases,
            final(self).events == old(self).events,
            final(self).next_pin == old(self).next_pin,
            final(self).cache_size_blocks == old(self).cache_size_blocks,
            final(self).cache_size_bytes == old(self).cache_size_bytes,
            final(self).gc_min_blocks == old(self).gc_min_blocks,
    {
        match pin {
            Some(p) => {
                let ghost ps = self.pins@;
                let c = copy_bytes(&block.cid);
                self.pins.push(PinEntry { handle: p.handle, cid: c });
                assert(pin_view(self.pins@) =~= pin_view(ps).push((p.handle, block.cid@)));
            },
            None => {},
        }
        match find(&self.blocks, &block.cid) {
            Some(i) => {
                proof {
                    lemma_data_of_at(self.blocks@, i as int);
                }
                self.touch(i);
                proof {
                    lemma_data_of_at(self.blocks@, i as int);
                }
            },
            None => {
                let ghost bs = self.blocks@;
                let n = block.data.len() as u64;
                let b = StoredBlock {
                    cid: block.cid,
                    data: block.data,
                    refs: block.refs,
                    last_access: self.clock,
                };
                self.blocks.push(b);
                self.clock = self.clock + 1;
                self.total_bytes = self.total_bytes + n;
                proof {
                    assert(data_lens(self.blocks@) =~= data_lens(bs).push(n as nat));
                    lemma_sum_push(data_lens(bs), n as nat);
                    assert(self.blocks@.drop_last() =~= bs);
                    assert forall|i: int, j: int|
                        0 <= i < self.blocks.len() && 0 <= j < self.blocks.len()
                            && #[trigger] self.blocks@[i].cid@ == #[trigger] self.blocks@[j].cid@
                        implies i == j by {
                        if i < bs.len() && j < bs.len() {
                        } else if i < bs.len() {
                            assert(bs[i].cid@ == block.cid@);
                        } else if j < bs.len() {
                            assert(bs[j].cid@ == block.cid@);
                        }
                    }
                    lemma_data_of_at(self.blocks@, bs.len() as int);
                }
            },
        }
    }

    /// The position of the alias `name`, if it is set.
    fn find_alias(&self, name: &Vec<u8>) -> (r: Option<usize>)
        ensures
            match r {
                Some(i) => i < self.aliases.len() && self.aliases@[i as int].name@ == name@,
                None => forall|i: int| 0 <= i < self.aliases.len() ==> self.aliases@[i].name@ != name@,
            },
    {
        let mut i: usize = 0;
        while i < self.aliases.len()
            invariant
                i <= self.aliases.len(),
                forall|k: int| 0 <= k < i ==> self.aliases@[k].name@ != name@,
            decreases self.aliases.len() - i,
        {
            if bytes_eq(&self.aliases[i].name, name) {
                return Some(i);
            }
            i = i + 1;
        }
        None
    }

    /// Points the alias `name` at `cid`, or removes it when `cid` is `None`.
    pub fn alias(&mut self, name: Vec<u8>, cid: Option<Vec<u8>>)
        requires
            old(self).wf(),
        ensures
            final(self).wf(),
            forall|n: Seq<u8>|
                #[trigger] resolves(final(self).aliases@, n) == if n == name@ {
                    match cid {
                        Some(c) => Some(c@),
                        None => None,
                    }
                } else {
                    resolves(old(self).aliases@, n)
                },
            final(self).blocks == old(self).blocks,
            final(self).pins == old(self).pins,
            final(self).events == old(self).events,
            final(self).clock == old(self).clock,
            final(self).next_pin == old(self).next_pin,
            final(self).cache_size_blocks == old(self).cache_size_blocks,
            final(self).cache_size_bytes == old(self).cache_size_bytes,
            final(self).gc_min_blocks == old(self).gc_min_blocks,
    {
        let ghost al = self.aliases@;
        let ghost nm = name@;
        match (self.find_alias(&name), cid) {
            (Some(i), Some(c)) => {
                let ghost cv = c@;
                self.aliases.set(i, AliasEntry { name, target: c });
                assert forall|n: Seq<u8>|
                    #[trigger] resolves(self.aliases@, n) == if n == nm { Some(cv) } else { resolves(al, n) } by {
                    if n == nm {
                        assert(self.aliases@[i as int].name@ == n);
                    } else {
                        assert forall|k: int| 0 <= k < al.len() implies (#[trigger] self.aliases@[k].name@ == n <==> al[k].name@ == n) by {}
                        if exists|k: int| 0 <= k < al.len() && #[trigger] al[k].name@ == n {
                            let k = choose|k: int| 0 <= k < al.len() && #[trigger] al[k].name@ == n;
                            assert(self.aliases@[k].name@ == n);
                        }
                    }
                }
            },
            (None, Some(c)) => {
                let ghost cv = c@;
                self.aliases.push(AliasEntry { name, target: c });
                let ghost last = al.len() as int;
                assert(self.aliases@[last].name@ == nm);
                assert forall|n: Seq<u8>|
                    #[trigger] resolves(self.aliases@, n) == if n == nm { Some(cv) } else { resolves(al, n) } by {
                    if n == nm {
                        let k = choose|k: int| 0 <= k < self.aliases.len() && #[trigger] self.aliases@[k].name@ == n;
                        assert(k == last);
                    } else {
                        assert forall|k: int| 0 <= k < al.len() implies (#[trigger] self.aliases@[k].name@ == n <==> al[k].name@ == n) by {}
                        if exists|k: int| 0 <= k < al.len() && #[trigger] al[k].name@ == n {
                            let k = choose|k: int| 0 <= k < al.len() && #[trigger] al[k].name@ == n;
                            assert(self.aliases@[k].name@ == n);
                        }
                    }
                }
            },
            (Some(i), None) => {
                self.aliases.remove(i);
                assert forall|n: Seq<u8>|
                    #[trigger] resolves(self.aliases@, n) == if n == nm { None } else { resolves(al, n) } by {
                    assert forall|k: int| 0 <= k < self.aliases.len() implies (#[trigger] self.aliases@[k]) == al[if k < i { k } else { k + 1 }] by {}
                    if n != nm {
                        if exists|k: int| 0 <= k < al.len() && #[trigger] al[k].name@ == n {
                            let k = choose|k: int| 0 <= k < al.len() && #[trigger] al[k].name@ == n;
                            if k < i {
                                assert(self.aliases@[k].name@ == n);
                            } else {
                                assert(self.aliases@[k - 1].name@ == n);
                            }
                        }
                    }
                }
            },
            (None, None) => {},
        }
    }

    /// The target of the alias `name`, if it is set.
    pub fn resolve(&self, name: &Vec<u8>) -> (r: Option<Vec<u8>>)
        requires
            self.wf(),
        ensures
            match r {
                Some(c) => resolves(self.aliases@, name@) == Some(c@),
                None => resolves(self.aliases@, name@) is None,
            },
    {
        match self.find_alias(name) {
            Some(i) => Some(copy_bytes(&self.aliases[i].target)),
            None => None,
        }
    }

    /// A new temporary pin that protects nothing yet.
    pub fn temp_pin(&mut self) -> (r: TempPin)
        requires
            old(self).wf(),
            old(self).next_pin < u64::MAX,
        ensures
            final(self).wf(),
            r.handle == old(self).next_pin,
            forall|i: int| 0 <= i < final(self).pins.len() ==> #[trigger] final(self).pins@[i].handle != r.handle,
            r.handle < final(self).next_pin,
            final(self).next_pin == old(self).next_pin + 1,
            final(self).blocks == old(self).blocks,
            final(self).aliases == old(self).aliases,
            final(self).pins == old(self).pins,
            final(self).events == old(self).events,
            final(self).clock == old(self).clock,
            final(self).cache_size_blocks == old(self).cache_size_blocks,
            final(self).cache_size_bytes == old(self).cache_size_bytes,
            final(self).gc_min_blocks == old(self).gc_min_blocks,
    {
        let handle = self.next_pin;
        self.next_pin = self.next_pin + 1;
        TempPin { handle }
    }

    /// Adds `cids` to what the temporary pin `pin` protects.
    pub fn assign_temp_pin(&mut self, pin: &TempPin, cids: &Vec<Vec<u8>>)
        requires
            old(self).wf(),
            pin.handle < old(self).next_pin,
        ensures
            final(self).wf(),
            pin_view(final(self).pins@) == pin_view(old(self).pins@) + views(cids@).map_values(
                |c: Seq<u8>| (pin.handle, c),
            ),
            final(self).blocks == old(self).blocks,
            final(self).aliases == old(self).aliases,
            final(self).events == old(self).events,
            final(self).clock == old(self).clock,
            final(self).next_pin == old(self).next_pin,
            final(self).cache_size_blocks == old(self).cache_size_blocks,
            final(self).cache_size_bytes == old(self).cache_size_bytes,
            final(self).gc_min_blocks == old(self).gc_min_blocks,
    {
        let ghost ps = pin_view(self.pins@);
        let mut i: usize = 0;
        while i < cids.len()
            invariant
                self.wf(),
                pin.handle < self.next_pin,
                i <= cids.len(),
                pin_view(self.pins@) == ps + views(cids@.subrange(0, i as int)).map_values(
                    |c: Seq<u8>| (pin.handle, c),
                ),
                self.blocks == old(self).blocks,
                self.aliases == old(self).aliases,
                self.events == old(self).events,
                self.clock == old(self).clock,
                self.next_pin == old(self).next_pin,
                self.cache_size_blocks == old(self).cache_size_blocks,
                self.cache_size_bytes == old(self).cache_size_bytes,
                self.gc_min_blocks == old(self).gc_min_blocks,
            decreases cids.len() - i,
        {
            let ghost before = self.pins@;
            self.pins.push(PinEntry { handle: pin.handle, cid: copy_bytes(&cids[i]) });
            assert(pin_view(self.pins@) =~= pin_view(before).push((pin.handle, cids@[i as int]@)));
            i = i + 1;
            assert(pin_view(self.pins@) =~= ps + views(cids@.subrange(0, i as int)).map_values(
                |c: Seq<u8>| (pin.handle, c),
            ));
        }
        assert(cids@.subrange(0, i as int) =~= cids@);
    }

    /// Releases the temporary pin `pin`: nothing it protected is protected by it any more.
    pub fn release_temp_pin(&mut self, pin: TempPin)
        requires
            old(self).wf(),
        ensures
            final(self).wf(),
            forall|x: (u64, Seq<u8>)|
                #[trigger] pin_view(final(self).pins@).contains(x) <==> (pin_view(old(self).pins@).contains(x)
                    && x.0 != pin.handle),
            final(self).blocks == old(self).blocks,
            final(self).aliases == old(self).aliases,
            final(self).events == old(self).events,
            final(self).clock == old(self).clock,
            final(self).next_pin == old(self).next_pin,
            final(self).cache_size_blocks == old(self).cache_size_blocks,
            final(self).cache_size_bytes == old(self).cache_size_bytes,
            final(self).gc_min_blocks == old(self).gc_min_blocks,
    {
        let ghost ps = pin_view(self.pins@);
        let mut i: usize = 0;
        while i < self.pins.len()
            invariant
                self.wf(),
                i <= self.pins.len(),
                forall|k: int| 0 <= k < i ==> #[trigger] self.pins@[k].handle != pin.handle,
                forall|x: (u64, Seq<u8>)| #[trigger] pin_view(self.pins@).contains(x) ==> ps.contains(x),
                forall|x: (u64, Seq<u8>)|
                    ps.contains(x) && x.0 != pin.handle ==> #[trigger] pin_view(self.pins@).contains(x),
                self.blocks == old(self).blocks,
                self.aliases == old(self).aliases,
                self.events == old(self).events,
                self.clock == old(self).clock,
                self.next_pin == old(self).next_pin,
                self.cache_size_blocks == old(self).cache_size_blocks,
                self.cache_size_bytes == old(self).cache_size_bytes,
                self.gc_min_blocks == old(self).gc_min_blocks,
            decreases self.pins.len() - i,
        {
            if self.pins[i].handle == pin.handle {
                let ghost before = self.pins@;
                self.pins.remove(i);
                proof {
                    assert forall|k: int| 0 <= k < self.pins.len() implies #[trigger] self.pins@[k] == before[if k < i { k } else { k + 1 }] by {}
                    assert forall|x: (u64, Seq<u8>)| #[trigger] pin_view(self.pins@).contains(x) implies ps.contains(x) by {
                        let k = choose|k: int| 0 <= k < self.pins.len() && pin_view(self.pins@)[k] == x;
                        let k2 = if k < i { k } else { k + 1 };
                        assert(pin_view(before)[k2] == x);
                        assert(pin_view(before).contains(x));
                    }
                    assert forall|x: (u64, Seq<u8>)| ps.contains(x) && x.0 != pin.handle implies #[trigger] pin_view(self.pins@).contains(x) by {
                        assert(pin_view(before).contains(x));
                        let k = choose|k: int| 0 <= k < before.len() && pin_view(before)[k] == x;
                        assert(k != i);
                        if k < i {
                            assert(pin_view(self.pins@)[k] == x);
                        } else {
                            assert(pin_view(self.pins@)[k - 1] == x);
                        }
                    }
                }
            } else {
                i = i + 1;
            }
        }
        assert forall|x: (u64, Seq<u8>)| #[trigger] pin_view(self.pins@).contains(x) implies x.0 != pin.handle by {
            let k = choose|k: int| 0 <= k < self.pins.len() && pin_view(self.pins@)[k] == x;
            assert(self.pins@[k].handle != pin.handle);
        }
    }

    /// The roots as a list: the alias targets, then the pinned identifiers.
    fn root_list(&self) -> (r: Vec<Vec<u8>>)
        ensures
            cid_set(r@) == self.roots(),
    {
        let mut r: Vec<Vec<u8>> = Vec::new();
        let mut i: usize = 0;
        while i < self.aliases.len()
            invariant
                i <= self.aliases.len(),
                views(r@) == self.aliases@.subrange(0, i as int).map_values(|a: AliasEntry| a.target@),
            decreases self.aliases.len() - i,
        {
            let ghost before = r@;
            r.push(copy_bytes(&self.aliases[i].target));
            assert(views(r@) =~= views(before).push(self.aliases@[i as int].target@));
            i = i + 1;
            assert(views(r@) =~= self.aliases@.subrange(0, i as int).map_values(|a: AliasEntry| a.target@));
        }
        assert(self.aliases@.subrange(0, i as int) =~= self.aliases@);
        let ghost targets = views(r@);
        let mut j: usize = 0;
        while j < self.pins.len()
            invariant
                j <= self.pins.len(),
                views(r@) == targets + self.pins@.subrange(0, j as int).map_values(|p: PinEntry| p.cid@),
            decreases self.pins.len() - j,
        {
            let ghost before = r@;
            r.push(copy_bytes(&self.pins[j].cid));
            assert(views(r@) =~= views(before).push(self.pins@[j as int].cid@));
            j = j + 1;
            assert(views(r@) =~= targets + self.pins@.subrange(0, j as int).map_values(|p: PinEntry| p.cid@));
        }
        assert(self.pins@.subrange(0, j as int) =~= self.pins@);
        assert(views(r@) == root_seq(self.aliases@, self.pins@));
        assert(cid_set(r@) =~= self.roots());
        r
    }

    /// `None` if `cid` is not stored; otherwise the names of the aliases
    /// from whose target `cid` is reachable.
    pub fn reverse_alias(&self, cid: &Vec<u8>) -> (r: Option<Vec<Vec<u8>>>)
        requires
            self.wf(),
        ensures
            r is None <==> !stored(self.blocks@, cid@),
            match r {
                Some(names) => forall|n: Seq<u8>|
                    #[trigger] views(names@).contains(n) <==> exists|i: int|
                        0 <= i < self.aliases.len() && #[trigger] self.aliases@[i].name@ == n
                            && reachable(self.blocks@, Set::empty().insert(self.aliases@[i].target@), cid@),
                None => true,
            },
    {
        let j = match find(&self.blocks, cid) {
            Some(j) => j,
            None => {
                return None;
            },
        };
        let mut names: Vec<Vec<u8>> = Vec::new();
        let mut i: usize = 0;
        while i < self.aliases.len()
            invariant
                self.wf(),
                j < self.blocks.len(),
                self.blocks@[j as int].cid@ == cid@,
                i <= self.aliases.len(),
                forall|n: Seq<u8>|
                    #[trigger] views(names@).contains(n) <==> exists|k: int|
                        0 <= k < i && #[trigger] self.aliases@[k].name@ == n
                            && reachable(self.blocks@, Set::empty().insert(self.aliases@[k].target@), cid@),
            decreases self.aliases.len() - i,
        {
            let roots = single(&self.aliases[i].target);
            let (flags, _) = walk(&self.blocks, &roots);
            if flags[j] {
                let ghost before = names@;
                names.push(copy_bytes(&self.aliases[i].name));
                proof {
                    assert(views(names@) =~= views(before).push(self.aliases@[i as int].name@));
                    assert forall|n: Seq<u8>|
                        #[trigger] views(names@).contains(n) <==> exists|k: int|
                            0 <= k < i + 1 && #[trigger] self.aliases@[k].name@ == n
                                && reachable(self.blocks@, Set::empty().insert(self.aliases@[k].target@), cid@) by {
                        if views(names@).contains(n) {
                            let m = choose|m: int| 0 <= m < views(names@).len() && views(names@)[m] == n;
                            if m < views(before).len() {
                                assert(views(before)[m] == n);
                                assert(views(before).contains(n));
                            }
                        }
                        if exists|k: int|
                            0 <= k < i + 1 && #[trigger] self.aliases@[k].name@ == n
                                && reachable(self.blocks@, Set::empty().insert(self.aliases@[k].target@), cid@) {
                            let k = choose|k: int|
                                0 <= k < i + 1 && #[trigger] self.aliases@[k].name@ == n
                                    && reachable(self.blocks@, Set::empty().insert(self.aliases@[k].target@), cid@);
                            if k < i {
                                assert(views(before).contains(n));
                                let m = choose|m: int| 0 <= m < views(before).len() && views(before)[m] == n;
                                assert(views(names@)[m] == n);
                            } else {
                                assert(views(names@)[views(before).len() as int] == n);
                            }
                        }
                    }
                }
            } else {
                proof {
                    assert forall|n: Seq<u8>|
                        #[trigger] views(names@).contains(n) implies exists|k: int|
                            0 <= k < i + 1 && #[trigger] self.aliases@[k].name@ == n
                                && reachable(self.blocks@, Set::empty().insert(self.aliases@[k].target@), cid@) by {
                        let k = choose|k: int|
                            0 <= k < i && #[trigger] self.aliases@[k].name@ == n
                                && reachable(self.blocks@, Set::empty().insert(self.aliases@[k].target@), cid@);
                    }
                    assert forall|n: Seq<u8>|
                        (exists|k: int|
                            0 <= k < i + 1 && #[trigger] self.aliases@[k].name@ == n
                                && reachable(self.blocks@, Set::empty().insert(self.aliases@[k].target@), cid@))
                        implies #[trigger] views(names@).contains(n) by {
                        let k = choose|k: int|
                            0 <= k < i + 1 && #[trigger] self.aliases@[k].name@ == n
                                && reachable(self.blocks@, Set::empty().insert(self.aliases@[k].target@), cid@);
                        if k == i {
                            assert(!reachable(self.blocks@, Set::empty().insert(self.aliases@[k].target@), cid@));
                        }
                    }
                }
            }
            i = i + 1;
        }
        Some(names)
    }

    /// The identifiers reachable from the stored block `cid` that are not
    /// stored; empty when `cid` itself is not stored.
    pub fn missing_blocks(&self, cid: &Vec<u8>) -> (r: Vec<Vec<u8>>)
        requires
            self.wf(),
        ensures
            !stored(self.blocks@, cid@) ==> r.len() == 0,
            stored(self.blocks@, cid@) ==> forall|c: Seq<u8>|
                #[trigger] views(r@).contains(c) <==> (reachable(
                    self.blocks@,
                    Set::empty().insert(cid@),
                    c,
                ) && !stored(self.blocks@, c)),
    {
        if find(&self.blocks, cid).is_none() {
            return Vec::new();
        }
        let roots = single(cid);
        let (_, missing) = walk(&self.blocks, &roots);
        missing
    }

    /// The blocks `bs` exceed the cache's count or byte budget.
    pub open spec fn over_budget(&self, bs: Seq<StoredBlock>) -> bool {
        bs.len() > self.cache_size_blocks || total_size(bs) > self.cache_size_bytes
    }

    /// Nothing is left for the collector: the blocks fit the budget, or every
    /// stored block is protected.
    pub open spec fn gc_done(&self) -> bool {
        !self.over_budget(self.blocks@) || forall|i: int|
            0 <= i < self.blocks.len() ==> self.protected(#[trigger] self.blocks@[i].cid@)
    }

    /// The unflagged block accessed least recently, if any.
    fn oldest_unflagged(&self, flags: &Vec<bool>) -> (r: Option<usize>)
        requires
            flags.len() == self.blocks.len(),
        ensures
            match r {
                Some(m) => m < flags.len() && !flags@[m as int] && forall|i: int|
                    0 <= i < flags.len() && !flags@[i] ==> self.blocks@[m as int].last_access
                        <= #[trigger] self.blocks@[i].last_access,
                None => forall|i: int| 0 <= i < flags.len() ==> #[trigger] flags@[i],
            },
    {
        let mut best: Option<usize> = None;
        let mut i: usize = 0;
        while i < flags.len()
            invariant
                flags.len() == self.blocks.len(),
                i <= flags.len(),
                match best {
                    Some(m) => m < i && !flags@[m as int] && forall|k: int|
                        0 <= k < i && !flags@[k] ==> self.blocks@[m as int].last_access
                            <= #[trigger] self.blocks@[k].last_access,
                    None => forall|k: int| 0 <= k < i ==> #[trigger] flags@[k],
                },
            decreases flags.len() - i,
        {
            if !flags[i] {
                match best {
                    Some(m) => {
                        if self.blocks[i].last_access < self.blocks[m].last_access {
                            best = Some(i);
                        }
                    },
                    None => {
                        best = Some(i);
                    },
                }
            }
            i = i + 1;
        }
        best
    }

    /// One incremental collection pass: deletes at most `max_deletions`
    /// unprotected blocks, least recently accessed first, while the store
    /// exceeds its budget. Each deletion is reported by a `Remove` event.
    /// Returns whether nothing is left to collect. A pass on a store with
    /// nothing left to collect changes nothing.
    pub fn incremental_gc(&mut self, max_deletions: usize) -> (done: bool)
        requires
            old(self).wf(),
        ensures
            final(self).wf(),
            done == final(self).gc_done(),
            old(self).gc_done() ==> final(self).blocks@ == old(self).blocks@ && final(self).events@
                == old(self).events@,
            !done ==> final(self).events.len() == old(self).events.len() + max_deletions,
            final(self).events.len() <= old(self).events.len() + max_deletions,
            gc_trace(
                old(self).blocks@,
                old(self).events@,
                old(self).roots(),
                final(self).blocks@,
                final(self).events@,
                old(self).cache_size_blocks,
                old(self).cache_size_bytes,
            ),
            forall|c: Seq<u8>| #[trigger] final(self).protected(c) == old(self).protected(c),
            final(self).aliases == old(self).aliases,
            final(self).pins == old(self).pins,
            final(self).clock == old(self).clock,
            final(self).next_pin == old(self).next_pin,
            final(self).cache_size_blocks == old(self).cache_size_blocks,
            final(self).cache_size_bytes == old(self).cache_size_bytes,
            final(self).gc_min_blocks == old(self).gc_min_blocks,
    {
        let ghost r0 = self.roots();
        let ghost ob = self.blocks@;
        let ghost oe = self.events@;
        let roots = self.root_list();
        let (mut flags, _) = walk(&self.blocks, &roots);
        let mut deleted: usize = 0;
        let mut done = false;
        let mut stop = false;
        proof {
            lemma_trace_start(ob, oe, r0, self.cache_size_blocks, self.cache_size_bytes);
        }
        while !stop
            invariant
                self.wf(),
                r0 == self.roots(),
                self.aliases == old(self).aliases,
                self.pins == old(self).pins,
                self.clock == old(self).clock,
                self.next_pin == old(self).next_pin,
                self.cache_size_blocks == old(self).cache_size_blocks,
                self.cache_size_bytes == old(self).cache_size_bytes,
                self.gc_min_blocks == old(self).gc_min_blocks,
                ob == old(self).blocks@,
                oe == old(self).events@,
                flags.len() == self.blocks.len(),
                forall|i: int| 0 <= i < self.blocks.len() ==> flags@[i] == reachable(self.blocks@, r0, #[trigger] self.blocks@[i].cid@),
                forall|c: Seq<u8>| #[trigger] reachable(self.blocks@, r0, c) == reachable(ob, r0, c),
                deleted <= max_deletions,
                self.events.len() == oe.len() + deleted,
                gc_trace(ob, oe, r0, self.blocks@, self.events@, self.cache_size_blocks, self.cache_size_bytes),
                old(self).gc_done() ==> deleted == 0,
                stop ==> done == self.gc_done(),
                stop && !done ==> deleted == max_deletions,
            decreases 2 * self.blocks.len() + if stop { 0int } else { 1int },
        {
            if (self.blocks.len() as u64) <= self.cache_size_blocks && self.total_bytes <= self.cache_size_bytes {
                done = true;
                stop = true;
            } else {
                match self.oldest_unflagged(&flags) {
                    None => {
                        done = true;
                        stop = true;
                    },
                    Some(m) => {
                        if deleted >= max_deletions {
                            done = false;
                            stop = true;
                            assert(!self.protected(self.blocks@[m as int].cid@));
                        } else {
                            let ghost prev = self.blocks@;
                            let ghost pe = self.events@;
                            proof {
                                if old(self).gc_done() {
                                    assert(prev == ob);
                                    assert(!self.protected(prev[m as int].cid@));
                                }
                                lemma_trace_step(ob, oe, r0, prev, pe, self.cache_size_blocks, self.cache_size_bytes, m as int);
                            }
                            let b = self.blocks.remove(m);
                            flags.remove(m);
                            self.total_bytes = self.total_bytes - b.data.len() as u64;
                            self.events.push(StorageEvent::Remove(b.cid));
                            deleted = deleted + 1;
                            proof {
                                assert(self.blocks@ == prev.remove(m as int));
                                assert(self.events@ == pe.push(StorageEvent::Remove(prev[m as int].cid)));
                                assert forall|k: int| 0 <= k < self.blocks.len() implies #[trigger] self.blocks@[k] == prev[if k < m { k } else { k + 1 }] by {}
                                assert(forall|i: int| 0 <= i < self.blocks.len() ==> #[trigger] self.blocks@[i].last_access < self.clock);
                            }
                        }
                    },
                }
            }
        }
        if deleted == 0 {
            assert(self.events@ =~= oe);
        }
        done
    }

    /// A full sweep: runs collection passes until nothing is left to collect.
    /// Afterwards the blocks fit the budget or every stored block is
    /// protected; no protected block was deleted. With a count budget of zero,
    /// a block is kept exactly when it is protected.
    pub fn evict(&mut self)
        requires
            old(self).wf(),
        ensures
            final(self).wf(),
            final(self).gc_done(),
            old(self).gc_done() ==> final(self).blocks@ == old(self).blocks@ && final(self).events@
                == old(self).events@,
            gc_trace(
                old(self).blocks@,
                old(self).events@,
                old(self).roots(),
                final(self).blocks@,
                final(self).events@,
                old(self).cache_size_blocks,
                old(self).cache_size_bytes,
            ),
            forall|c: Seq<u8>| #[trigger] final(self).protected(c) == old(self).protected(c),
            old(self).cache_size_blocks == 0 ==> forall|j: int|
                0 <= j < old(self).blocks.len() ==> (final(self).blocks@.contains(#[trigger] old(self).blocks@[j])
                    <==> old(self).protected(old(self).blocks@[j].cid@)),
            final(self).aliases == old(self).aliases,
            final(self).pins == old(self).pins,
            final(self).clock == old(self).clock,
            final(self).next_pin == old(self).next_pin,
            final(self).cache_size_blocks == old(self).cache_size_blocks,
            final(self).cache_size_bytes == old(self).cache_size_bytes,
            final(self).gc_min_blocks == old(self).gc_min_blocks,
    {
        let ghost r0 = self.roots();
        let ghost ob = self.blocks@;
        let ghost oe = self.events@;
        let n: usize = if self.gc_min_blocks == 0 { 1 } else { self.gc_min_blocks };
        let mut done = self.incremental_gc(n);
        while !done
            invariant
                self.wf(),
                n >= 1,
                r0 == self.roots(),
                ob == old(self).blocks@,
                oe == old(self).events@,
                gc_trace(ob, oe, r0, self.blocks@, self.events@, self.cache_size_blocks, self.cache_size_bytes),
                forall|c: Seq<u8>| #[trigger] self.protected(c) == old(self).protected(c),
                done == self.gc_done(),
                old(self).gc_done() ==> self.blocks@ == ob && self.events@ == oe && done,
                self.aliases == old(self).aliases,
                self.pins == old(self).pins,
                self.clock == old(self).clock,
                self.next_pin == old(self).next_pin,
                self.cache_size_blocks == old(self).cache_size_blocks,
                self.cache_size_bytes == old(self).cache_size_bytes,
                self.gc_min_blocks == old(self).gc_min_blocks,
            decreases self.blocks.len() + if done { 0int } else { 1int },
        {
            let ghost mb = self.blocks@;
            let ghost me = self.events@;
            assert forall|c: Seq<u8>| #[trigger] reachable(mb, r0, c) == reachable(ob, r0, c) by {
                assert(self.protected(c) == old(self).protected(c));
            }
            done = self.incremental_gc(n);
            assert forall|c: Seq<u8>| #[trigger] reachable(self.blocks@, r0, c) == reachable(ob, r0, c) by {
                assert(self.protected(c) == old(self).protected(c));
            }
            proof {
                lemma_trace_compose(ob, oe, r0, mb, me, self.blocks@, self.events@, self.cache_size_blocks, self.cache_size_bytes);
            }
        }
        proof {
            if self.cache_size_blocks == 0 {
                reveal(kept);
                assert forall|j: int| 0 <= j < ob.len() implies (self.blocks@.contains(#[trigger] ob[j])
                    <==> old(self).protected(ob[j].cid@)) by {
                    if self.blocks@.contains(ob[j]) {
                        let i = choose|i: int| 0 <= i < self.blocks.len() && self.blocks@[i] == ob[j];
                        assert(self.protected(self.blocks@[i].cid@));
                    }
                }
            }
        }
    }

    /// Hands out the events reported so far, oldest first, and forgets them.
    pub fn take_events(&mut self) -> (r: Vec<StorageEvent>)
        ensures
            r@ == old(self).events@,
            final(self).events@.len() == 0,
            final(self).blocks == old(self).blocks,
            final(self).aliases == old(self).aliases,
            final(self).pins == old(self).pins,
            final(self).clock == old(self).clock,
            final(self).next_pin == old(self).next_pin,
            final(self).total_bytes == old(self).total_bytes,
            final(self).cache_size_blocks == old(self).cache_size_blocks,
            final(self).cache_size_bytes == old(self).cache_size_bytes,
            final(self).gc_min_blocks == old(self).gc_min_blocks,
    {
        let mut r: Vec<StorageEvent> = Vec::new();
        std::mem::swap(&mut r, &mut self.events);
        r
    }
}

} // verus!
