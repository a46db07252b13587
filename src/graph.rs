use vstd::prelude::*;
use crate::bytes::{bytes_eq, copy_bytes, position, views};

verus! {

/// A block as the store keeps it: its content identifier, its bytes, the
/// identifiers its payload references, and the tick of its last access.
pub struct StoredBlock {
    pub cid: Vec<u8>,
    pub data: Vec<u8>,
    pub refs: Vec<Vec<u8>>,
    pub last_access: u64,
}

/// No two stored blocks share an identifier.
pub open spec fn unique_cids(bs: Seq<StoredBlock>) -> bool {
    forall|i: int, j: int|
        0 <= i < bs.len() && 0 <= j < bs.len() && #[trigger] bs[i].cid@ == #[trigger] bs[j].cid@
            ==> i == j
}

/// Whether a block with identifier `c` is stored.
pub open spec fn stored(bs: Seq<StoredBlock>, c: Seq<u8>) -> bool {
    exists|i: int| 0 <= i < bs.len() && #[trigger] bs[i].cid@ == c
}

/// `set` holds every identifier referenced by a stored block that it holds.
pub open spec fn closed(bs: Seq<StoredBlock>, set: Set<Seq<u8>>) -> bool {
    forall|i: int, k: int|
        0 <= i < bs.len() && 0 <= k < bs[i].refs.len() && #[trigger] set.contains(bs[i].cid@)
            ==> set.contains(#[trigger] bs[i].refs@[k]@)
}

/// `c` is reachable from `roots`: it lies in every set that holds the roots
/// and is closed under the references of stored blocks.
pub open spec fn reachable(bs: Seq<StoredBlock>, roots: Set<Seq<u8>>, c: Seq<u8>) -> bool {
    forall|set: Set<Seq<u8>>|
        #![trigger closed(bs, set)]
        roots.subset_of(set) && closed(bs, set) ==> set.contains(c)
}

/// The identifiers of a list, as a set.
pub open spec fn cid_set(v: Seq<Vec<u8>>) -> Set<Seq<u8>> {
    Set::new(|c: Seq<u8>| views(v).contains(c))
}

/// The position of the block with identifier `c`, if one is stored.
pub fn find(bs: &Vec<StoredBlock>, c: &Vec<u8>) -> (r: Option<usize>)
    ensures
        match r {
            Some(j) => j < bs.len() && bs@[j as int].cid@ == c@,
            None => !stored(bs@, c@),
        },
{
    let mut i: usize = 0;
    while i < bs.len()
        invariant
            i <= bs.len(),
            forall|k: int| 0 <= k < i ==> bs@[k].cid@ != c@,
        decreases bs.len() - i,
    {
        if bytes_eq(&bs[i].cid, c) {
            return Some(i);
        }
        i = i + 1;
    }
    None
}

/// The number of unset flags.
pub open spec fn unmarked(s: Seq<bool>) -> nat
    decreases s.len(),
{
    if s.len() == 0 {
        0
    } else {
        unmarked(s.drop_last()) + if s.last() { 0nat } else { 1nat }
    }
}

proof fn lemma_mark_decreases(s: Seq<bool>, i: int)
    requires
        0 <= i < s.len(),
        !s[i],
    ensures
        unmarked(s.update(i, true)) < unmarked(s),
    decreases s.len(),
{
    let t = s.update(i, true);
    if i == s.len() - 1 {
        assert(t.drop_last() =~= s.drop_last());
    } else {
        assert(t.drop_last() =~= s.drop_last().update(i, true));
        lemma_mark_decreases(s.drop_last(), i);
    }
}

/// What the walk has established so far: what it marked, queued or listed
/// as missing is reachable; each marked block has every reference queued,
/// marked or listed; so has each root.
pub open spec fn walk_inv(
    bs: Seq<StoredBlock>,
    roots: Set<Seq<u8>>,
    flags: Seq<bool>,
    work: Seq<usize>,
    missing: Seq<Vec<u8>>,
) -> bool {
    &&& flags.len() == bs.len()
    &&& forall|w: int| 0 <= w < work.len() ==> #[trigger] work[w] < bs.len()
    &&& forall|i: int| 0 <= i < bs.len() && #[trigger] flags[i] ==> reachable(bs, roots, bs[i].cid@)
    &&& forall|w: int|
        0 <= w < work.len() ==> reachable(bs, roots, bs[#[trigger] work[w] as int].cid@)
    &&& forall|c: Seq<u8>|
        #[trigger] views(missing).contains(c) ==> reachable(bs, roots, c) && !stored(bs, c)
}

/// `c` is covered: marked or queued where it is stored, listed where it is not.
pub open spec fn covered(
    bs: Seq<StoredBlock>,
    flags: Seq<bool>,
    work: Seq<usize>,
    missing: Seq<Vec<u8>>,
    c: Seq<u8>,
) -> bool {
    &&& forall|j: int| 0 <= j < bs.len() && #[trigger] bs[j].cid@ == c ==> flags[j] || work.contains(j as usize)
    &&& !stored(bs, c) ==> views(missing).contains(c)
}

/// Queues the block with identifier `c`, or lists `c` as missing.
fn note(
    bs: &Vec<StoredBlock>,
    c: &Vec<u8>,
    work: &mut Vec<usize>,
    missing: &mut Vec<Vec<u8>>,
)
    requires
        unique_cids(bs@),
    ensures
        forall|w: int| 0 <= w < old(work).len() ==> final(work)@[w] == old(work)@[w],
        final(work).len() >= old(work).len(),
        forall|w: int| old(work).len() <= w < final(work).len() ==> #[trigger] final(work)@[w] < bs.len() && bs@[final(work)@[w] as int].cid@ == c@,
        forall|x: Seq<u8>| #[trigger] views(final(missing)@).contains(x) ==> views(old(missing)@).contains(x) || (x == c@ && !stored(bs@, c@)),
        forall|x: Seq<u8>| views(old(missing)@).contains(x) ==> #[trigger] views(final(missing)@).contains(x),
        forall|j: int| 0 <= j < bs.len() && #[trigger] bs@[j].cid@ == c@ ==> final(work)@.contains(j as usize),
        !stored(bs@, c@) ==> views(final(missing)@).contains(c@),
{
    match find(bs, c) {
        Some(j) => {
            work.push(j);
            assert(final(work)@[final(work).len() - 1] == j);
        },
        None => {
            if position(missing, c).is_none() {
                let ghost before = missing@;
                missing.push(copy_bytes(c));
                assert(views(missing@) =~= views(before).push(c@));
                assert(views(missing@)[views(missing@).len() - 1] == c@);
                assert forall|x: Seq<u8>| views(before).contains(x) implies views(
                    missing@,
                ).contains(x) by {
                    let k = choose|k: int| 0 <= k < views(before).len() && views(before)[k] == x;
                    assert(views(missing@)[k] == x);
                }
            }
        },
    }
}


proof fn lemma_root_reachable(bs: Seq<StoredBlock>, roots: Set<Seq<u8>>, c: Seq<u8>)
    requires
        roots.contains(c),
    ensures
        reachable(bs, roots, c),
{
    assert forall|set: Set<Seq<u8>>| #![trigger closed(bs, set)]
        roots.subset_of(set) && closed(bs, set) implies set.contains(c) by {}
}

proof fn lemma_step_reachable(bs: Seq<StoredBlock>, roots: Set<Seq<u8>>, i: int, k: int)
    requires
        0 <= i < bs.len(),
        0 <= k < bs[i].refs.len(),
        reachable(bs, roots, bs[i].cid@),
    ensures
        reachable(bs, roots, bs[i].refs@[k]@),
{
    assert forall|set: Set<Seq<u8>>| #![trigger closed(bs, set)]
        roots.subset_of(set) && closed(bs, set) implies set.contains(bs[i].refs@[k]@) by {
        assert(set.contains(bs[i].cid@));
    }
}

proof fn lemma_covered_mono(
    bs: Seq<StoredBlock>,
    flags: Seq<bool>,
    work: Seq<usize>,
    missing: Seq<Vec<u8>>,
    flags2: Seq<bool>,
    work2: Seq<usize>,
    missing2: Seq<Vec<u8>>,
    c: Seq<u8>,
)
    requires
        bs.len() <= usize::MAX,
        flags.len() == bs.len(),
        flags2.len() == bs.len(),
        forall|j: int| 0 <= j < bs.len() && flags[j] ==> flags2[j],
        forall|j: usize| work.contains(j) && j < bs.len() ==> flags2[j as int] || work2.contains(j),
        forall|x: Seq<u8>| views(missing).contains(x) ==> views(missing2).contains(x),
        covered(bs, flags, work, missing, c),
    ensures
        covered(bs, flags2, work2, missing2, c),
{
    assert forall|j: int| 0 <= j < bs.len() && #[trigger] bs[j].cid@ == c implies flags2[j]
        || work2.contains(j as usize) by {
        let ju = j as usize;
        assert(ju as int == j);
        if !flags[j] {
            assert(work.contains(ju));
            assert(flags2[ju as int] || work2.contains(ju));
        }
    }
}

proof fn lemma_prefix_contains(work: Seq<usize>, work2: Seq<usize>)
    requires
        work.len() <= work2.len(),
        forall|w: int| 0 <= w < work.len() ==> work2[w] == work[w],
    ensures
        forall|j: usize| work.contains(j) ==> work2.contains(j),
{
    assert forall|j: usize| work.contains(j) implies work2.contains(j) by {
        let w = choose|w: int| 0 <= w < work.len() && work[w] == j;
        assert(work2[w] == j);
    }
}

/// Every root, and every reference of a marked block, is covered.
pub open spec fn all_covered(
    bs: Seq<StoredBlock>,
    roots: Seq<Vec<u8>>,
    flags: Seq<bool>,
    work: Seq<usize>,
    missing: Seq<Vec<u8>>,
    skip: int,
    from: int,
) -> bool {
    &&& forall|r: int| 0 <= r < roots.len() ==> covered(bs, flags, work, missing, #[trigger] roots[r]@)
    &&& forall|i: int, k: int|
        0 <= i < bs.len() && 0 <= k < bs[i].refs.len() && flags[i] && (i != skip || k < from)
            ==> covered(bs, flags, work, missing, #[trigger] bs[i].refs@[k]@)
}

proof fn lemma_all_covered_mono(
    bs: Seq<StoredBlock>,
    roots: Seq<Vec<u8>>,
    flags: Seq<bool>,
    work: Seq<usize>,
    missing: Seq<Vec<u8>>,
    work2: Seq<usize>,
    missing2: Seq<Vec<u8>>,
    skip: int,
    from: int,
)
    requires
        bs.len() <= usize::MAX,
        flags.len() == bs.len(),
        forall|j: usize| work.contains(j) && j < bs.len() ==> flags[j as int] || work2.contains(j),
        forall|x: Seq<u8>| views(missing).contains(x) ==> views(missing2).contains(x),
        all_covered(bs, roots, flags, work, missing, skip, from),
    ensures
        all_covered(bs, roots, flags, work2, missing2, skip, from),
{
    assert forall|r: int| 0 <= r < roots.len() implies covered(
        bs,
        flags,
        work2,
        missing2,
        #[trigger] roots[r]@,
    ) by {
        lemma_covered_mono(bs, flags, work, missing, flags, work2, missing2, roots[r]@);
    }
    assert forall|i: int, k: int|
        0 <= i < bs.len() && 0 <= k < bs[i].refs.len() && flags[i] && (i != skip || k < from)
        implies covered(bs, flags, work2, missing2, #[trigger] bs[i].refs@[k]@) by {
        lemma_covered_mono(bs, flags, work, missing, flags, work2, missing2, bs[i].refs@[k]@);
    }
}

/// Walks the references from `roots`. Returns, for each stored block,
/// whether it is reachable, and the reachable identifiers that are not stored.
pub fn walk(bs: &Vec<StoredBlock>, roots: &Vec<Vec<u8>>) -> (r: (Vec<bool>, Vec<Vec<u8>>))
    requires
        unique_cids(bs@),
    ensures
        r.0.len() == bs.len(),
        forall|i: int| 0 <= i < bs.len() ==> r.0@[i] == reachable(bs@, cid_set(roots@), bs@[i].cid@),
        forall|c: Seq<u8>|
            #[trigger] views(r.1@).contains(c) <==> (reachable(bs@, cid_set(roots@), c) && !stored(bs@, c)),
{
    let ghost rs = cid_set(roots@);
    let mut flags: Vec<bool> = Vec::new();
    let mut missing: Vec<Vec<u8>> = Vec::new();
    let mut work: Vec<usize> = Vec::new();
    while flags.len() < bs.len()
        invariant
            flags.len() <= bs.len(),
            forall|i: int| 0 <= i < flags.len() ==> !flags@[i],
        decreases bs.len() - flags.len(),
    {
        flags.push(false);
    }
    assert(views(missing@) =~= Seq::<Seq<u8>>::empty());
    let mut r: usize = 0;
    while r < roots.len()
        invariant
            unique_cids(bs@),
            rs == cid_set(roots@),
            r <= roots.len(),
            forall|i: int| 0 <= i < flags.len() ==> !flags@[i],
            walk_inv(bs@, rs, flags@, work@, missing@),
            all_covered(bs@, roots@.subrange(0, r as int), flags@, work@, missing@, -1, 0),
        decreases roots.len() - r,
    {
        let ghost w0 = work@;
        let ghost m0 = missing@;
        proof {
            assert(views(roots@)[r as int] == roots@[r as int]@);
            assert(rs.contains(roots@[r as int]@));
            lemma_root_reachable(bs@, rs, roots@[r as int]@);
        }
        note(bs, &roots[r], &mut work, &mut missing);
        proof {
            lemma_prefix_contains(w0, work@);
            lemma_all_covered_mono(bs@, roots@.subrange(0, r as int), flags@, w0, m0, work@, missing@, -1, 0);
            assert(roots@.subrange(0, r + 1) =~= roots@.subrange(0, r as int).push(roots@[r as int]));
        }
        r = r + 1;
    }
    assert(roots@.subrange(0, roots.len() as int) =~= roots@);
    while work.len() > 0
        invariant
            unique_cids(bs@),
            bs@.len() <= usize::MAX,
            rs == cid_set(roots@),
            walk_inv(bs@, rs, flags@, work@, missing@),
            all_covered(bs@, roots@, flags@, work@, missing@, -1, 0),
        decreases unmarked(flags@), work.len(),
    {
        let ghost w0 = work@;
        let i = work.pop().unwrap();
        assert(w0 =~= work@.push(i));
        proof {
            assert forall|j: usize| w0.contains(j) implies j == i || work@.contains(j) by {
                let w = choose|w: int| 0 <= w < w0.len() && w0[w] == j;
                if w < work.len() {
                    assert(work@[w] == j);
                }
            }
        }
        if flags[i] {
            proof {
                lemma_all_covered_mono(bs@, roots@, flags@, w0, missing@, work@, missing@, -1, 0);
            }
        } else {
            let ghost f0 = flags@;
            let ghost m0 = missing@;
            proof {
                lemma_mark_decreases(f0, i as int);
            }
            flags.set(i, true);
            proof {
                assert forall|c: Seq<u8>| covered(bs@, f0, w0, m0, c) implies covered(bs@, flags@, work@, missing@, c) by {
                    lemma_covered_mono(bs@, f0, w0, m0, flags@, work@, missing@, c);
                }
                assert forall|ii: int, k: int|
                    0 <= ii < bs.len() && 0 <= k < bs@[ii].refs.len() && flags@[ii] && (ii != i || k < 0)
                    implies covered(bs@, flags@, work@, missing@, #[trigger] bs@[ii].refs@[k]@) by {
                    assert(f0[ii]);
                    assert(covered(bs@, f0, w0, m0, bs@[ii].refs@[k]@));
                }
                assert forall|r: int| 0 <= r < roots.len() implies covered(bs@, flags@, work@, missing@, #[trigger] roots@[r]@) by {
                    assert(covered(bs@, f0, w0, m0, roots@[r]@));
                }
            }
            let mut k: usize = 0;
            while k < bs[i].refs.len()
                invariant
                    unique_cids(bs@),
                    bs@.len() <= usize::MAX,
                    rs == cid_set(roots@),
                    i < bs.len(),
                    k <= bs@[i as int].refs.len(),
                    flags@[i as int],
                    flags@ == f0.update(i as int, true),
                    walk_inv(bs@, rs, flags@, work@, missing@),
                    all_covered(bs@, roots@, flags@, work@, missing@, i as int, k as int),
                decreases bs@[i as int].refs.len() - k,
            {
                let ghost w1 = work@;
                let ghost m1 = missing@;
                proof {
                    lemma_step_reachable(bs@, rs, i as int, k as int);
                }
                note(bs, &bs[i].refs[k], &mut work, &mut missing);
                proof {
                    lemma_prefix_contains(w1, work@);
                    lemma_all_covered_mono(bs@, roots@, flags@, w1, m1, work@, missing@, i as int, k as int);
                }
                k = k + 1;
            }
            assert(all_covered(bs@, roots@, flags@, work@, missing@, -1, 0));
        }
    }
    proof {
        let set = Set::new(|c: Seq<u8>| (exists|j: int| 0 <= j < bs.len() && flags@[j] && #[trigger] bs@[j].cid@ == c) || views(missing@).contains(c));
        assert forall|c: Seq<u8>| covered(bs@, flags@, work@, missing@, c) implies set.contains(c) by {
            if stored(bs@, c) {
                let j = choose|j: int| 0 <= j < bs.len() && #[trigger] bs@[j].cid@ == c;
                assert(flags@[j]);
            }
        }
        assert forall|c: Seq<u8>| rs.contains(c) implies set.contains(c) by {
            let r = choose|r: int| 0 <= r < views(roots@).len() && views(roots@)[r] == c;
            assert(covered(bs@, flags@, work@, missing@, roots@[r]@));
        }
        assert(rs.subset_of(set));
        assert forall|i: int, k: int|
            0 <= i < bs.len() && 0 <= k < bs@[i].refs.len() && #[trigger] set.contains(bs@[i].cid@)
            implies set.contains(#[trigger] bs@[i].refs@[k]@) by {
            if !flags@[i] {
                if exists|j: int| 0 <= j < bs.len() && flags@[j] && #[trigger] bs@[j].cid@ == bs@[i].cid@ {
                    let j = choose|j: int| 0 <= j < bs.len() && flags@[j] && #[trigger] bs@[j].cid@ == bs@[i].cid@;
                    assert(i == j);
                } else {
                    assert(views(missing@).contains(bs@[i].cid@));
                    assert(stored(bs@, bs@[i].cid@));
                }
            }
            assert(covered(bs@, flags@, work@, missing@, bs@[i].refs@[k]@));
        }
        assert(closed(bs@, set));
        assert forall|i: int| 0 <= i < bs.len() implies flags@[i] == reachable(bs@, rs, bs@[i].cid@) by {
            if reachable(bs@, rs, bs@[i].cid@) {
                assert(set.contains(bs@[i].cid@));
                if !flags@[i] {
                    if exists|j: int| 0 <= j < bs.len() && flags@[j] && #[trigger] bs@[j].cid@ == bs@[i].cid@ {
                        let j = choose|j: int| 0 <= j < bs.len() && flags@[j] && #[trigger] bs@[j].cid@ == bs@[i].cid@;
                        assert(i == j);
                    } else {
                        assert(stored(bs@, bs@[i].cid@));
                    }
                }
            }
        }
        assert forall|c: Seq<u8>| reachable(bs@, rs, c) && !stored(bs@, c) implies #[trigger] views(missing@).contains(c) by {
            assert(set.contains(c));
        }
    }
    (flags, missing)
}


/// Deleting a block that is not reachable leaves what is reachable unchanged,
/// and identifiers unique.
pub proof fn lemma_remove_unreachable(bs: Seq<StoredBlock>, roots: Set<Seq<u8>>, i: int)
    requires
        unique_cids(bs),
        0 <= i < bs.len(),
        !reachable(bs, roots, bs[i].cid@),
    ensures
        unique_cids(bs.remove(i)),
        forall|c: Seq<u8>| #[trigger] reachable(bs.remove(i), roots, c) == reachable(bs, roots, c),
{
    let bs2 = bs.remove(i);
    assert forall|k: int| 0 <= k < bs2.len() implies #[trigger] bs2[k] == bs[if k < i { k } else { k + 1 }] by {}
    assert forall|a: int, b: int|
        0 <= a < bs2.len() && 0 <= b < bs2.len() && #[trigger] bs2[a].cid@ == #[trigger] bs2[b].cid@
        implies a == b by {
        assert(bs[if a < i { a } else { a + 1 }].cid@ == bs[if b < i { b } else { b + 1 }].cid@);
    }
    let r = Set::new(|c: Seq<u8>| reachable(bs, roots, c));
    assert forall|c: Seq<u8>| roots.contains(c) implies r.contains(c) by {
        lemma_root_reachable(bs, roots, c);
    }
    assert forall|a: int, k: int|
        0 <= a < bs2.len() && 0 <= k < bs2[a].refs.len() && #[trigger] r.contains(bs2[a].cid@)
        implies r.contains(#[trigger] bs2[a].refs@[k]@) by {
        let a2 = if a < i { a } else { a + 1 };
        assert(bs2[a] == bs[a2]);
        lemma_step_reachable(bs, roots, a2, k);
    }
    assert(closed(bs2, r));
    assert forall|c: Seq<u8>| #[trigger] reachable(bs2, roots, c) == reachable(bs, roots, c) by {
        if reachable(bs2, roots, c) {
            assert(roots.subset_of(r));
            assert(r.contains(c));
        }
        if reachable(bs, roots, c) {
            assert forall|set: Set<Seq<u8>>| #![trigger closed(bs2, set)]
                roots.subset_of(set) && closed(bs2, set) implies set.contains(c) by {
                let t = set.intersect(r);
                assert forall|x: Seq<u8>| roots.contains(x) implies t.contains(x) by {
                    lemma_root_reachable(bs, roots, x);
                }
                assert forall|a: int, k: int|
                    0 <= a < bs.len() && 0 <= k < bs[a].refs.len() && #[trigger] t.contains(bs[a].cid@)
                    implies t.contains(#[trigger] bs[a].refs@[k]@) by {
                    assert(a != i);
                    let a2 = if a < i { a } else { a - 1 };
                    assert(bs2[a2] == bs[a]);
                    assert(set.contains(bs2[a2].cid@));
                    assert(set.contains(bs2[a2].refs@[k]@));
                    lemma_step_reachable(bs, roots, a, k);
                }
                assert(roots.subset_of(t));
                assert(closed(bs, t));
                assert(t.contains(c));
            }
        }
    }
}

} // verus!
