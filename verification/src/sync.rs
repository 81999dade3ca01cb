use vstd::prelude::*;
use crate::chunkmap::{
    container_of, spec_container_of, spec_local_index, spec_set_bit, ones, set_bit, popcount,
    empty_bitmap, lemma_ones_bound, CONTAINER_BYTES, bit_of, decoded, pair_of, lemma_set_bit_bits,
    lemma_decoded_iff_bit_set, lemma_decoded_in_container, lemma_chunk_position_roundtrip,
    lemma_bitmaps_eq, lemma_decoded_no_duplicates, lemma_decoded_count, spec_chunk_at,
};
use crate::models::{
    category_id, category_name, category_names, spec_category_id, lemma_category_roundtrip,
    ChunkPushRequest,
    ChunkPullResponse, ContainerDto, WaypointDto, WaypointOut, WaypointPullResponse,
    WaypointPushRequest,
};
use crate::error::AppError;

verus! {

broadcast use vstd::string::group_string_axioms;

// ---------------------------------------------------------------------------
// Grouping pushed chunks by container
// ---------------------------------------------------------------------------

/// The pushed chunks of one category that fall into one container.
pub struct ChunkGroup {
    pub category: i16,
    pub container_x: i32,
    pub container_z: i32,
    pub coords: Vec<[i32; 2]>,
}

/// The container of a pushed chunk.
pub open spec fn chunk_container(c: [i32; 2]) -> (int, int) {
    spec_container_of(c[0] as int, c[1] as int)
}

/// The key a group is stored under: category and container.
pub open spec fn group_key(g: ChunkGroup) -> (int, int, int) {
    (g.category as int, g.container_x as int, g.container_z as int)
}

/// The chunks of `coords` that lie in container `(x, z)`, in order.
pub open spec fn in_container(coords: Seq<[i32; 2]>, x: int, z: int) -> Seq<[i32; 2]>
    decreases coords.len(),
{
    if coords.len() == 0 {
        Seq::empty()
    } else {
        let r = in_container(coords.drop_last(), x, z);
        if chunk_container(coords.last()) == (x, z) {
            r.push(coords.last())
        } else {
            r
        }
    }
}

/// The category id of a pushed entry's name, if it names one.
pub open spec fn entry_category(e: (String, Vec<[i32; 2]>)) -> Option<int> {
    spec_category_id(e.0@)
}

/// The chunks pushed under category `cat` that lie in container `(x, z)`, in
/// the order in which they were pushed.
pub open spec fn picks(entries: Seq<(String, Vec<[i32; 2]>)>, cat: int, x: int, z: int) -> Seq<
    [i32; 2],
>
    decreases entries.len(),
{
    if entries.len() == 0 {
        Seq::empty()
    } else {
        picks(entries.drop_last(), cat, x, z) + if entry_category(entries.last()) == Some(cat) {
            in_container(entries.last().1@, x, z)
        } else {
            Seq::empty()
        }
    }
}

/// `picks` over the first `i` entries and the first `j` chunks of entry `i`.
pub open spec fn picked_so_far(
    entries: Seq<(String, Vec<[i32; 2]>)>,
    i: int,
    j: int,
    cat: int,
    x: int,
    z: int,
) -> Seq<[i32; 2]> {
    picks(entries.take(i), cat, x, z) + if i < entries.len() && entry_category(entries[i]) == Some(
        cat,
    ) {
        in_container(entries[i].1@.take(j), x, z)
    } else {
        Seq::empty()
    }
}

proof fn lemma_in_container_step(s: Seq<[i32; 2]>, j: int, x: int, z: int)
    requires
        0 <= j < s.len(),
    ensures
        in_container(s.take(j + 1), x, z) == if chunk_container(s[j]) == (x, z) {
            in_container(s.take(j), x, z).push(s[j])
        } else {
            in_container(s.take(j), x, z)
        },
{
    assert(s.take(j + 1).drop_last() =~= s.take(j));
}

proof fn lemma_picks_step(entries: Seq<(String, Vec<[i32; 2]>)>, i: int, cat: int, x: int, z: int)
    requires
        0 <= i < entries.len(),
    ensures
        picked_so_far(entries, i, entries[i].1@.len() as int, cat, x, z) == picked_so_far(
            entries,
            i + 1,
            0,
            cat,
            x,
            z,
        ),
{
    assert(entries.take(i + 1).drop_last() =~= entries.take(i));
    assert(entries[i].1@.take(entries[i].1@.len() as int) =~= entries[i].1@);
    assert(entries[i + 1 - 1] == entries.take(i + 1).last());
    if i + 1 < entries.len() {
        assert(in_container(entries[i + 1].1@.take(0), x, z) =~= Seq::empty()) by {
            assert(entries[i + 1].1@.take(0).len() == 0);
        }
    }
    assert(picked_so_far(entries, i + 1, 0, cat, x, z) =~= picks(entries.take(i + 1), cat, x, z));
}

/// Every chunk picked for a container lies in that container.
pub proof fn lemma_picks_in_container(
    entries: Seq<(String, Vec<[i32; 2]>)>,
    cat: int,
    x: int,
    z: int,
    k: int,
)
    requires
        0 <= k < picks(entries, cat, x, z).len(),
    ensures
        chunk_container(picks(entries, cat, x, z)[k]) == (x, z),
    decreases entries.len(),
{
    let p = picks(entries.drop_last(), cat, x, z);
    if k < p.len() {
        lemma_picks_in_container(entries.drop_last(), cat, x, z, k);
    } else {
        lemma_in_container_all(entries.last().1@, x, z, k - p.len());
    }
}

proof fn lemma_in_container_all(s: Seq<[i32; 2]>, x: int, z: int, k: int)
    requires
        0 <= k < in_container(s, x, z).len(),
    ensures
        chunk_container(in_container(s, x, z)[k]) == (x, z),
    decreases s.len(),
{
    let r = in_container(s.drop_last(), x, z);
    if k < r.len() {
        lemma_in_container_all(s.drop_last(), x, z, k);
    }
}


proof fn lemma_in_container_has(s: Seq<[i32; 2]>, j: int)
    requires
        0 <= j < s.len(),
    ensures
        in_container(s, chunk_container(s[j]).0, chunk_container(s[j]).1).contains(s[j]),
    decreases s.len(),
{
    let (x, z) = chunk_container(s[j]);
    if j < s.len() - 1 {
        lemma_in_container_has(s.drop_last(), j);
        let r = in_container(s.drop_last(), x, z);
        let k = choose|k: int| 0 <= k < r.len() && r[k] == s[j];
        assert(in_container(s, x, z)[k] == s[j]);
    } else {
        let r = in_container(s, x, z);
        assert(r[r.len() - 1] == s[j]);
    }
}

/// No pushed chunk of a known category is lost: it is picked for its own
/// category and container.
pub proof fn lemma_pushed_chunk_picked(entries: Seq<(String, Vec<[i32; 2]>)>, i: int, j: int)
    requires
        0 <= i < entries.len(),
        0 <= j < entries[i].1@.len(),
        entry_category(entries[i]) is Some,
    ensures
        picks(
            entries,
            entry_category(entries[i])->0,
            chunk_container(entries[i].1@[j]).0,
            chunk_container(entries[i].1@[j]).1,
        ).contains(entries[i].1@[j]),
    decreases entries.len(),
{
    let c = entries[i].1@[j];
    let cat = entry_category(entries[i])->0;
    let (x, z) = chunk_container(c);
    let prev = entries.drop_last();
    if i < entries.len() - 1 {
        assert(prev[i] == entries[i]);
        lemma_pushed_chunk_picked(prev, i, j);
        let p = picks(prev, cat, x, z);
        let k = choose|k: int| 0 <= k < p.len() && p[k] == c;
        assert(picks(entries, cat, x, z)[k] == c);
    } else {
        lemma_in_container_has(entries[i].1@, j);
        let r = in_container(entries[i].1@, x, z);
        let k = choose|k: int| 0 <= k < r.len() && r[k] == c;
        let p = picks(prev, cat, x, z);
        assert(picks(entries, cat, x, z)[p.len() + k] == c);
    }
}


/// An entry is grouped under category `k` exactly when its name is the `k`-th
/// category name.
pub proof fn lemma_entry_category_is_named(e: (String, Vec<[i32; 2]>), k: int)
    ensures
        entry_category(e) == Some(k) <==> (0 <= k < 6 && category_names()[k] == e.0@),
{
    lemma_category_roundtrip(k, e.0@);
}

proof fn lemma_in_container_origin(s: Seq<[i32; 2]>, x: int, z: int, m: int)
    requires
        0 <= m < in_container(s, x, z).len(),
    ensures
        s.contains(in_container(s, x, z)[m]),
    decreases s.len(),
{
    let r = in_container(s.drop_last(), x, z);
    if m < r.len() {
        lemma_in_container_origin(s.drop_last(), x, z, m);
        let q = choose|q: int| 0 <= q < s.drop_last().len() && s.drop_last()[q] == r[m];
        assert(s[q] == r[m]);
    } else {
        assert(s[s.len() - 1] == in_container(s, x, z)[m]);
    }
}

/// Every chunk picked for category `cat` comes from an entry named by `cat`.
pub proof fn lemma_picks_origin(
    entries: Seq<(String, Vec<[i32; 2]>)>,
    cat: int,
    x: int,
    z: int,
    m: int,
)
    requires
        0 <= m < picks(entries, cat, x, z).len(),
    ensures
        exists|i: int|
            0 <= i < entries.len() && 0 <= cat < 6 && #[trigger] entries[i].0@
                == category_names()[cat] && entries[i].1@.contains(picks(entries, cat, x, z)[m]),
    decreases entries.len(),
{
    let prev = entries.drop_last();
    let p = picks(prev, cat, x, z);
    if m < p.len() {
        lemma_picks_origin(prev, cat, x, z, m);
        let i = choose|i: int|
            0 <= i < prev.len() && 0 <= cat < 6 && #[trigger] prev[i].0@ == category_names()[cat]
                && prev[i].1@.contains(p[m]);
        assert(entries[i] == prev[i]);
    } else {
        let last = entries.len() - 1;
        lemma_entry_category_is_named(entries[last], cat);
        lemma_in_container_origin(entries[last].1@, x, z, m - p.len());
        assert(entries[last].0@ == category_names()[cat]);
    }
}

/// A chunk pushed under the `k`-th category name is picked for category `k`
/// in its own container.
pub proof fn lemma_named_entry_chunk_picked(
    entries: Seq<(String, Vec<[i32; 2]>)>,
    i: int,
    j: int,
    k: int,
)
    requires
        0 <= i < entries.len(),
        0 <= j < entries[i].1@.len(),
        0 <= k < 6,
        entries[i].0@ == category_names()[k],
    ensures
        picks(
            entries,
            k,
            chunk_container(entries[i].1@[j]).0,
            chunk_container(entries[i].1@[j]).1,
        ).contains(entries[i].1@[j]),
{
    lemma_entry_category_is_named(entries[i], k);
    lemma_pushed_chunk_picked(entries, i, j);
}

/// Some pushed entry named `name` holds chunk `c`.
pub open spec fn pushed_under(entries: Seq<(String, Vec<[i32; 2]>)>, name: Seq<char>, c: [i32; 2]) -> bool {
    exists|i: int| 0 <= i < entries.len() && #[trigger] entries[i].0@ == name && entries[i].1@.contains(c)
}

/// Every chunk of group `g` was pushed in an entry named by the group's category.
pub open spec fn pushed_under_its_name(entries: Seq<(String, Vec<[i32; 2]>)>, g: ChunkGroup) -> bool {
    forall|m: int|
        0 <= m < g.coords@.len() ==> pushed_under(entries, category_names()[g.category as int], #[trigger] g.coords@[m])
}

/// Groups the pushed chunks by category and container: one group per key, in
/// order of first appearance; entries whose name is no category are skipped.
/// Entry names are distinct in a request (`category_entries_distinct`); were a
/// name repeated, its chunks would follow those of its earlier entry.
pub fn group_chunks(entries: &Vec<(String, Vec<[i32; 2]>)>) -> (groups: Vec<ChunkGroup>)
    ensures
        forall|a: int, b: int|
            0 <= a < b < groups@.len() ==> group_key(groups@[a]) != group_key(groups@[b]),
        forall|a: int|
            0 <= a < groups@.len() ==> {
                &&& 0 <= (#[trigger] groups@[a]).category < 6
                &&& groups@[a].coords@ == picks(
                    entries@,
                    groups@[a].category as int,
                    groups@[a].container_x as int,
                    groups@[a].container_z as int,
                )
                &&& groups@[a].coords@.len() > 0
            },
        forall|cat: int, x: int, z: int|
            #![trigger picks(entries@, cat, x, z)]
            picks(entries@, cat, x, z).len() > 0 ==> exists|a: int|
                0 <= a < groups@.len() && group_key(groups@[a]) == (cat, x, z),
        forall|a: int| 0 <= a < groups@.len() ==> pushed_under_its_name(entries@, #[trigger] groups@[a]),
{
    let ghost es = entries@;
    let mut groups: Vec<ChunkGroup> = Vec::new();
    let mut i: usize = 0;
    while i < entries.len()
        invariant
            es == entries@,
            i <= es.len(),
            forall|a: int, b: int|
                0 <= a < b < groups@.len() ==> group_key(groups@[a]) != group_key(groups@[b]),
            forall|a: int|
                0 <= a < groups@.len() ==> {
                    &&& 0 <= (#[trigger] groups@[a]).category < 6
                    &&& groups@[a].coords@ == picked_so_far(
                        es,
                        i as int,
                        0,
                        groups@[a].category as int,
                        groups@[a].container_x as int,
                        groups@[a].container_z as int,
                    )
                    &&& groups@[a].coords@.len() > 0
                },
            forall|cat: int, x: int, z: int|
                #![trigger picked_so_far(es, i as int, 0, cat, x, z)]
                picked_so_far(es, i as int, 0, cat, x, z).len() > 0 ==> exists|a: int|
                    0 <= a < groups@.len() && group_key(groups@[a]) == (cat, x, z),
        decreases es.len() - i,
    {
        let cat_opt = category_id(entries[i].0.as_str());
        let ghost gi = i as int;
        match cat_opt {
            None => {
                proof {
                    assert forall|cat: int, x: int, z: int|
                        picked_so_far(es, gi + 1, 0, cat, x, z) == picked_so_far(
                            es,
                            gi,
                            0,
                            cat,
                            x,
                            z,
                        ) by {
                        lemma_picks_step(es, gi, cat, x, z);
                        assert(picked_so_far(es, gi, es[gi].1@.len() as int, cat, x, z)
                            =~= picked_so_far(es, gi, 0, cat, x, z));
                    }
                    assert forall|cat: int, x: int, z: int|
                        #![trigger picked_so_far(es, gi + 1, 0, cat, x, z)]
                        picked_so_far(es, gi + 1, 0, cat, x, z).len() > 0 implies exists|a: int|
                            0 <= a < groups@.len() && group_key(groups@[a]) == (cat, x, z) by {
                        assert(picked_so_far(es, gi, 0, cat, x, z).len() > 0);
                    }
                }
            },
            Some(cat) => {
                let n = entries[i].1.len();
                let mut j: usize = 0;
                while j < n
                    invariant
                        es == entries@,
                        i < es.len(),
                        gi == i,
                        n == es[gi].1@.len(),
                        j <= n,
                        entry_category(es[gi]) == Some(cat as int),
                        0 <= cat < 6,
                        forall|a: int, b: int|
                            0 <= a < b < groups@.len() ==> group_key(groups@[a]) != group_key(
                                groups@[b],
                            ),
                        forall|a: int|
                            0 <= a < groups@.len() ==> {
                                &&& 0 <= (#[trigger] groups@[a]).category < 6
                                &&& groups@[a].coords@ == picked_so_far(
                                    es,
                                    gi,
                                    j as int,
                                    groups@[a].category as int,
                                    groups@[a].container_x as int,
                                    groups@[a].container_z as int,
                                )
                                &&& groups@[a].coords@.len() > 0
                            },
                        forall|c: int, x: int, z: int|
                            #![trigger picked_so_far(es, gi, j as int, c, x, z)]
                            picked_so_far(es, gi, j as int, c, x, z).len() > 0 ==> exists|a: int|
                                0 <= a < groups@.len() && group_key(groups@[a]) == (c, x, z),
                    decreases n - j,
                {
                    let c = entries[i].1[j];
                    let (x, z) = container_of(c[0], c[1]);
                    let ghost key = (cat as int, x as int, z as int);
                    proof {
                        assert forall|cc: int, xx: int, zz: int|
                            picked_so_far(es, gi, j + 1, cc, xx, zz) == if (cc, xx, zz) == key {
                                picked_so_far(es, gi, j as int, cc, xx, zz).push(c)
                            } else {
                                picked_so_far(es, gi, j as int, cc, xx, zz)
                            } by {
                            lemma_in_container_step(es[gi].1@, j as int, xx, zz);
                            if entry_category(es[gi]) == Some(cc) {
                                assert(cc == cat);
                            }
                        }
                    }
                    let mut a: usize = 0;
                    let mut found = false;
                    while !found && a < groups.len()
                        invariant
                            a <= groups@.len(),
                            found ==> a < groups@.len() && group_key(groups@[a as int]) == key,
                            forall|b: int| 0 <= b < a ==> group_key(groups@[b]) != key,
                            key == (cat as int, x as int, z as int),
                        decreases groups@.len() - a + if found {
                            0int
                        } else {
                            1int
                        },
                    {
                        if groups[a].category == cat && groups[a].container_x == x
                            && groups[a].container_z == z {
                            found = true;
                        } else {
                            a = a + 1;
                        }
                    }
                    let ghost before = groups@;
                    if found {
                        groups[a].coords.push(c);
                        proof {
                            assert(groups@.len() == before.len());
                            assert forall|b: int| 0 <= b < groups@.len() && b != a implies groups@[b]
                                == before[b] by {}
                            assert(group_key(groups@[a as int]) == group_key(before[a as int]));
                            assert forall|b: int| 0 <= b < groups@.len() implies group_key(
                                #[trigger] groups@[b],
                            ) == group_key(before[b]) by {}
                            assert forall|cc: int, xx: int, zz: int|
                                #![trigger picked_so_far(es, gi, j + 1, cc, xx, zz)]
                                picked_so_far(es, gi, j + 1, cc, xx, zz).len() > 0 implies exists|
                                    b: int,
                                | 0 <= b < groups@.len() && group_key(groups@[b]) == (cc, xx, zz) by {
                                if (cc, xx, zz) == key {
                                    assert(group_key(groups@[a as int]) == (cc, xx, zz));
                                } else {
                                    assert(picked_so_far(es, gi, j as int, cc, xx, zz).len() > 0);
                                    let b = choose|b: int|
                                        0 <= b < before.len() && group_key(before[b]) == (cc, xx, zz);
                                    assert(group_key(groups@[b]) == (cc, xx, zz));
                                }
                            }
                        }
                    } else {
                        let mut v: Vec<[i32; 2]> = Vec::new();
                        v.push(c);
                        groups.push(
                            ChunkGroup { category: cat, container_x: x, container_z: z, coords: v },
                        );
                        proof {
                            let last = before.len() as int;
                            assert(group_key(groups@[last]) == key);
                            assert forall|b: int| 0 <= b < before.len() implies groups@[b] == before[b] by {}
                            assert(picked_so_far(es, gi, j as int, cat as int, x as int, z as int).len() == 0) by {
                                if picked_so_far(es, gi, j as int, cat as int, x as int, z as int).len() > 0 {
                                    let b = choose|b: int|
                                        0 <= b < before.len() && group_key(before[b]) == key;
                                }
                            }
                            assert(groups@[last].coords@ =~= picked_so_far(es, gi, j as int, cat as int, x as int, z as int).push(c));
                            assert forall|cc: int, xx: int, zz: int|
                                #![trigger picked_so_far(es, gi, j + 1, cc, xx, zz)]
                                picked_so_far(es, gi, j + 1, cc, xx, zz).len() > 0 implies exists|
                                    b: int,
                                | 0 <= b < groups@.len() && group_key(groups@[b]) == (cc, xx, zz) by {
                                if (cc, xx, zz) == key {
                                    assert(group_key(groups@[last]) == (cc, xx, zz));
                                } else {
                                    assert(picked_so_far(es, gi, j as int, cc, xx, zz).len() > 0);
                                    let b = choose|b: int|
                                        0 <= b < before.len() && group_key(before[b]) == (cc, xx, zz);
                                    assert(group_key(groups@[b]) == (cc, xx, zz));
                                }
                            }
                        }
                    }
                    j = j + 1;
                }
                proof {
                    assert forall|c: int, x: int, z: int|
                        picked_so_far(es, gi + 1, 0, c, x, z) == picked_so_far(
                            es,
                            gi,
                            n as int,
                            c,
                            x,
                            z,
                        ) by {
                        lemma_picks_step(es, gi, c, x, z);
                    }
                    assert forall|c: int, x: int, z: int|
                        #![trigger picked_so_far(es, gi + 1, 0, c, x, z)]
                        picked_so_far(es, gi + 1, 0, c, x, z).len() > 0 implies exists|a: int|
                            0 <= a < groups@.len() && group_key(groups@[a]) == (c, x, z) by {
                        assert(picked_so_far(es, gi, n as int, c, x, z).len() > 0);
                    }
                }
            },
        }
        i = i + 1;
    }
    proof {
        assert(es.take(es.len() as int) =~= es);
        assert forall|c: int, x: int, z: int|
            picked_so_far(es, es.len() as int, 0, c, x, z) == picks(es, c, x, z) by {}
        assert forall|a: int| 0 <= a < groups@.len() implies pushed_under_its_name(es, #[trigger] groups@[a]) by {
            let g = groups@[a];
            let pk = picks(es, g.category as int, g.container_x as int, g.container_z as int);
            assert(picked_so_far(es, es.len() as int, 0, g.category as int, g.container_x as int, g.container_z as int) == pk);
            assert(g.coords@ == pk);
            assert forall|m: int| 0 <= m < g.coords@.len() implies pushed_under(es, category_names()[g.category as int], #[trigger] g.coords@[m]) by {
                lemma_picks_origin(es, g.category as int, g.container_x as int, g.container_z as int, m);
                let i = choose|i: int|
                    0 <= i < es.len() && 0 <= g.category < 6 && #[trigger] es[i].0@
                        == category_names()[g.category as int] && es[i].1@.contains(pk[m]);
                assert(es[i].1@.contains(g.coords@[m]));
            }
        }
    }
    groups
}


// ---------------------------------------------------------------------------
// Merging pushed chunks into a stored container
// ---------------------------------------------------------------------------


/// The bits set after `set_all` are the bits set before and the bits of the
/// pushed chunks.
pub proof fn lemma_set_all_bits(bm: Seq<u8>, coords: Seq<[i32; 2]>, idx: int)
    requires
        bm.len() == CONTAINER_BYTES,
        0 <= idx < 1024,
    ensures
        set_all(bm, coords).len() == bm.len(),
        bit_of(set_all(bm, coords), idx) <==> (bit_of(bm, idx) || exists|k: int|
            0 <= k < coords.len() && spec_local_index(
                (#[trigger] coords[k])[0] as int,
                coords[k][1] as int,
            ) == idx),
    decreases coords.len(),
{
    if coords.len() > 0 {
        let prev = coords.drop_last();
        lemma_set_all_bits(bm, prev, idx);
        let c = coords.last();
        let li = spec_local_index(c[0] as int, c[1] as int);
        lemma_chunk_position_roundtrip(c[0] as int, c[1] as int);
        lemma_set_bit_bits(set_all(bm, prev), li, idx);
        if exists|k: int|
            0 <= k < prev.len() && spec_local_index((#[trigger] prev[k])[0] as int, prev[k][1] as int)
                == idx {
            let k = choose|k: int|
                0 <= k < prev.len() && spec_local_index((#[trigger] prev[k])[0] as int, prev[k][1] as int)
                    == idx;
            assert(coords[k] == prev[k]);
        }
        if exists|k: int|
            0 <= k < coords.len() && spec_local_index((#[trigger] coords[k])[0] as int, coords[k][1] as int)
                == idx {
            let k = choose|k: int|
                0 <= k < coords.len() && spec_local_index((#[trigger] coords[k])[0] as int, coords[k][1] as int)
                    == idx;
            if k < prev.len() {
                assert(coords[k] == prev[k]);
            }
        }
    }
}


/// Merging the same chunks again changes nothing, so a repeated push applies
/// nothing new.
pub proof fn lemma_merge_idempotent(bm: Seq<u8>, coords: Seq<[i32; 2]>)
    requires
        bm.len() == CONTAINER_BYTES,
    ensures
        set_all(set_all(bm, coords), coords) == set_all(bm, coords),
{
    let once = set_all(bm, coords);
    let twice = set_all(once, coords);
    lemma_set_all_bits(bm, coords, 0);
    lemma_set_all_bits(once, coords, 0);
    assert forall|idx: int| 0 <= idx < 8 * twice.len() implies bit_of(twice, idx) == #[trigger] bit_of(
        once,
        idx,
    ) by {
        lemma_set_all_bits(bm, coords, idx);
        lemma_set_all_bits(once, coords, idx);
    }
    lemma_bitmaps_eq(twice, once);
}

/// What a pull gives back of a push: after merging chunks of one container into
/// its bitmap, the container decodes to every merged chunk, and to nothing that
/// was neither stored before nor merged.
pub proof fn lemma_merged_chunks_decoded(bm: Seq<u8>, coords: Seq<[i32; 2]>, x: int, z: int)
    requires
        bm.len() == CONTAINER_BYTES,
        forall|k: int| 0 <= k < coords.len() ==> chunk_container(#[trigger] coords[k]) == (x, z),
    ensures
        forall|k: int|
            0 <= k < coords.len() ==> decoded(x, z, set_all(bm, coords)).contains(
                pair_of(#[trigger] coords[k]),
            ),
        forall|p: (int, int)|
            #[trigger] decoded(x, z, set_all(bm, coords)).contains(p) ==> decoded(x, z, bm).contains(p)
                || exists|k: int| 0 <= k < coords.len() && pair_of(#[trigger] coords[k]) == p,
{
    let after = set_all(bm, coords);
    assert forall|k: int| 0 <= k < coords.len() implies decoded(x, z, after).contains(
        pair_of(#[trigger] coords[k]),
    ) by {
        let c = coords[k];
        lemma_chunk_position_roundtrip(c[0] as int, c[1] as int);
        let li = spec_local_index(c[0] as int, c[1] as int);
        lemma_set_all_bits(bm, coords, li);
        lemma_decoded_iff_bit_set(c[0] as int, c[1] as int, after);
    }
    assert forall|p: (int, int)| #[trigger] decoded(x, z, after).contains(p) implies decoded(
        x,
        z,
        bm,
    ).contains(p) || exists|k: int| 0 <= k < coords.len() && pair_of(#[trigger] coords[k]) == p by {
        lemma_decoded_in_container(x, z, after, p);
        let li = spec_local_index(p.0, p.1);
        lemma_chunk_position_roundtrip(p.0, p.1);
        lemma_set_all_bits(bm, coords, li);
        if bit_of(bm, li) {
            lemma_decoded_iff_bit_set(p.0, p.1, bm);
        } else {
            let k = choose|k: int|
                0 <= k < coords.len() && spec_local_index(
                    (#[trigger] coords[k])[0] as int,
                    coords[k][1] as int,
                ) == li;
            let c = coords[k];
            lemma_chunk_position_roundtrip(c[0] as int, c[1] as int);
            assert(pair_of(c) == p);
        }
    }
}


/// A stored bitmap brought to the standard size has the standard size.
pub proof fn lemma_normalized_len(existing: Option<Seq<u8>>)
    ensures
        normalized(existing).len() == CONTAINER_BYTES,
{
}

/// What a pull gives back of a push, for each pushed chunk: a chunk pushed under
/// a known category is decoded from its group's container once the group is
/// merged into that container, whatever the container held before.
pub proof fn lemma_pushed_chunk_decoded(
    entries: Seq<(String, Vec<[i32; 2]>)>,
    i: int,
    j: int,
    existing: Option<Seq<u8>>,
)
    requires
        0 <= i < entries.len(),
        0 <= j < entries[i].1@.len(),
        entry_category(entries[i]) is Some,
    ensures
        decoded(
            chunk_container(entries[i].1@[j]).0,
            chunk_container(entries[i].1@[j]).1,
            set_all(
                normalized(existing),
                picks(
                    entries,
                    entry_category(entries[i])->0,
                    chunk_container(entries[i].1@[j]).0,
                    chunk_container(entries[i].1@[j]).1,
                ),
            ),
        ).contains(pair_of(entries[i].1@[j])),
{
    let c = entries[i].1@[j];
    let cat = entry_category(entries[i])->0;
    let (x, z) = chunk_container(c);
    let p = picks(entries, cat, x, z);
    lemma_pushed_chunk_picked(entries, i, j);
    let k = choose|k: int| 0 <= k < p.len() && p[k] == c;
    assert forall|m: int| 0 <= m < p.len() implies chunk_container(#[trigger] p[m]) == (x, z) by {
        lemma_picks_in_container(entries, cat, x, z, m);
    }
    lemma_normalized_len(existing);
    lemma_merged_chunks_decoded(normalized(existing), p, x, z);
    assert(decoded(x, z, set_all(normalized(existing), p)).contains(pair_of(p[k])));
}

/// The pushed chunks of container `(x, z)` that it did not hold before.
pub open spec fn new_chunks(x: int, z: int, bm: Seq<u8>, coords: Seq<[i32; 2]>) -> Set<(int, int)> {
    Set::new(
        |p: (int, int)|
            (exists|k: int| 0 <= k < coords.len() && pair_of(#[trigger] coords[k]) == p) && !decoded(
                x,
                z,
                bm,
            ).contains(p),
    )
}

/// The count a merge reports as new is the number of distinct pushed chunks
/// that the container did not hold before.
pub proof fn lemma_newly_counts_new_chunks(bm: Seq<u8>, coords: Seq<[i32; 2]>, x: int, z: int)
    requires
        bm.len() == CONTAINER_BYTES,
        forall|k: int| 0 <= k < coords.len() ==> chunk_container(#[trigger] coords[k]) == (x, z),
    ensures
        new_chunks(x, z, bm, coords).finite(),
        ones(set_all(bm, coords)) - ones(bm) == new_chunks(x, z, bm, coords).len(),
{
    broadcast use vstd::seq_lib::seq_to_set_is_finite;

    let after = set_all(bm, coords);
    lemma_set_all_bits(bm, coords, 0);
    let da = decoded(x, z, bm);
    let db = decoded(x, z, after);
    let a = da.to_set();
    let b = db.to_set();
    let n = new_chunks(x, z, bm, coords);
    lemma_decoded_no_duplicates(x, z, bm);
    lemma_decoded_no_duplicates(x, z, after);
    da.unique_seq_to_set();
    db.unique_seq_to_set();
    lemma_decoded_count(x, z, bm);
    lemma_decoded_count(x, z, after);
    lemma_merged_chunks_decoded(bm, coords, x, z);
    assert forall|p: (int, int)| a.contains(p) implies b.contains(p) by {
        assert(da.contains(p));
        lemma_decoded_in_container(x, z, bm, p);
        lemma_chunk_position_roundtrip(p.0, p.1);
        lemma_set_all_bits(bm, coords, spec_local_index(p.0, p.1));
        lemma_decoded_iff_bit_set(p.0, p.1, after);
    }
    assert forall|p: (int, int)| n.contains(p) implies b.contains(p) by {
        let k = choose|k: int| 0 <= k < coords.len() && pair_of(#[trigger] coords[k]) == p;
        assert(db.contains(pair_of(coords[k])));
    }
    assert forall|p: (int, int)| b.contains(p) implies a.contains(p) || n.contains(p) by {
        assert(db.contains(p));
    }
    assert(b =~= a + n);
    assert(n.subset_of(b));
    vstd::set_lib::lemma_set_subset_finite(b, n);
    assert(a.disjoint(n));
    vstd::set_lib::lemma_set_disjoint_lens(a, n);
}

/// A stored bitmap, if there is one.
pub open spec fn stored(existing: Option<Vec<u8>>) -> Option<Seq<u8>> {
    match existing {
        Some(v) => Some(v@),
        None => None,
    }
}

/// A stored bitmap brought to the standard size: a missing one is all zero, a
/// longer one is cut, a shorter one is padded with zero bytes.
pub open spec fn normalized(existing: Option<Seq<u8>>) -> Seq<u8> {
    match existing {
        None => Seq::new(128, |i: int| 0u8),
        Some(b) => if b.len() >= 128 {
            b.take(128)
        } else {
            b + Seq::new((128 - b.len()) as nat, |i: int| 0u8)
        },
    }
}

/// The bitmap after setting the bit of every chunk of `coords`, in order.
pub open spec fn set_all(bm: Seq<u8>, coords: Seq<[i32; 2]>) -> Seq<u8>
    decreases coords.len(),
{
    if coords.len() == 0 {
        bm
    } else {
        spec_set_bit(
            set_all(bm, coords.drop_last()),
            spec_local_index(coords.last()[0] as int, coords.last()[1] as int),
        )
    }
}

/// A container bitmap after a push, with the number of chunks the push added
/// and the number of chunks it now holds.
pub struct MergedContainer {
    pub bitmap: Vec<u8>,
    pub newly: i64,
    pub count: i32,
}

impl MergedContainer {
    /// Whether the push changed the container, so that it must be written back.
    pub fn needs_write(&self) -> (b: bool)
        ensures
            b == (self.newly != 0),
    {
        self.newly != 0
    }
}

/// Sets the bits of `coords` in the stored bitmap (normalized to the standard
/// size). The container needs no write when `newly` is zero.
pub fn merge_container(existing: Option<Vec<u8>>, coords: &Vec<[i32; 2]>) -> (m: MergedContainer)
    ensures
        m.bitmap@ == set_all(normalized(stored(existing)), coords@),
        m.newly == ones(m.bitmap@) - ones(normalized(stored(existing))),
        m.count == ones(m.bitmap@),
        m.bitmap@.len() == CONTAINER_BYTES,
        0 <= m.newly <= m.count <= 1024,
{
    let ghost start = normalized(stored(existing));
    let mut bitmap = match existing {
        Some(v) => v,
        None => empty_bitmap(),
    };
    if bitmap.len() != CONTAINER_BYTES {
        if bitmap.len() > CONTAINER_BYTES {
            bitmap.truncate(CONTAINER_BYTES);
        } else {
            let ghost orig = bitmap@;
            while bitmap.len() < CONTAINER_BYTES
                invariant
                    orig.len() < 128,
                    orig.len() <= bitmap@.len() <= 128,
                    bitmap@ == orig + Seq::new((bitmap@.len() - orig.len()) as nat, |i: int| 0u8),
                decreases 128 - bitmap@.len(),
            {
                bitmap.push(0u8);
                assert(bitmap@ =~= orig + Seq::new((bitmap@.len() - orig.len()) as nat, |i: int| 0u8));
            }
        }
    }
    assert(bitmap@ =~= start);
    let mut newly: i64 = 0;
    let mut k: usize = 0;
    while k < coords.len()
        invariant
            k <= coords@.len(),
            start.len() == 128,
            bitmap@ == set_all(start, coords@.take(k as int)),
            bitmap@.len() == 128,
            newly == ones(bitmap@) - ones(start),
            0 <= newly <= 1024,
        decreases coords@.len() - k,
    {
        let c = coords[k];
        proof {
            assert(coords@.take(k + 1).drop_last() =~= coords@.take(k as int));
            lemma_ones_bound(bitmap@);
            assert(spec_local_index(c[0] as int, c[1] as int) < 1024);
        }
        let added = set_bit(&mut bitmap, c[0], c[1]);
        proof {
            lemma_ones_bound(bitmap@);
            lemma_ones_bound(start);
        }
        if added {
            newly = newly + 1;
        }
        k = k + 1;
    }
    proof {
        assert(coords@.take(coords@.len() as int) =~= coords@);
        lemma_ones_bound(bitmap@);
    }
    let count = popcount(&bitmap);
    proof {
        lemma_ones_bound(bitmap@);
    }
    MergedContainer { bitmap, newly, count }
}

/// The running result of a push: chunks (or waypoints) applied and the highest
/// sequence number stamped.
pub struct PushTally {
    pub applied: i64,
    pub max_seq: i64,
}

impl PushTally {
    /// Nothing applied yet.
    pub fn new() -> (t: PushTally)
        ensures
            t.applied == 0,
            t.max_seq == 0,
    {
        PushTally { applied: 0, max_seq: 0 }
    }

    /// Counts `applied` more items written under sequence number `seq`.
    pub fn record(&mut self, applied: i64, seq: i64)
        requires
            i64::MIN <= old(self).applied + applied <= i64::MAX,
        ensures
            final(self).applied == old(self).applied + applied,
            final(self).max_seq == if seq > old(self).max_seq {
                seq
            } else {
                old(self).max_seq
            },
    {
        self.applied = self.applied + applied;
        if seq > self.max_seq {
            self.max_seq = seq;
        }
    }
}

/// A chunk push names a world and a dimension.
pub fn validate_chunk_push(req: &ChunkPushRequest) -> (r: Result<(), AppError>)
    ensures
        r is Ok <==> req.world@.len() > 0 && req.dimension@.len() > 0,
        r matches Err(e) ==> e matches AppError::BadRequest(m) && m@
            == "world and dimension required"@,
{
    if req.world.as_str().is_empty() || req.dimension.as_str().is_empty() {
        return Err(AppError::BadRequest("world and dimension required".to_string()));
    }
    Ok(())
}

// ---------------------------------------------------------------------------
// Pulling containers
// ---------------------------------------------------------------------------

/// The page size of a chunk pull: 5000 unless asked, and kept within 1..=20000.
pub open spec fn spec_pull_limit(limit: Option<i64>) -> i64 {
    let l = match limit {
        Some(l) => l,
        None => 5000,
    };
    if l < 1 {
        1
    } else if l > 20000 {
        20000
    } else {
        l
    }
}

/// The page size of a chunk pull.
pub fn chunk_pull_limit(limit: Option<i64>) -> (r: i64)
    ensures
        r == spec_pull_limit(limit),
        1 <= r <= 20000,
{
    let l = match limit {
        Some(l) => l,
        None => 5000,
    };
    if l < 1 {
        1
    } else if l > 20000 {
        20000
    } else {
        l
    }
}

/// A stored container changed after the pull cursor.
pub struct ContainerRow {
    pub player: String,
    pub category: i16,
    pub cx: i32,
    pub cz: i32,
    pub bitmap: Vec<u8>,
    pub seq: i64,
}

/// The character of a 6-bit value in the standard base64 alphabet.
pub open spec fn base64_char(n: int) -> char {
    if n < 26 {
        (65 + n) as char
    } else if n < 52 {
        (71 + n) as char
    } else if n < 62 {
        (n - 4) as char
    } else if n == 62 {
        '+'
    } else {
        '/'
    }
}

/// The standard (RFC 4648) base64 text of `bytes`: every three bytes become
/// four characters, high bits first; a final one or two bytes are padded with `=`.
pub open spec fn base64_standard(bytes: Seq<u8>) -> Seq<char>
    decreases bytes.len(),
{
    if bytes.len() == 0 {
        Seq::empty()
    } else if bytes.len() == 1 {
        let a = bytes[0] as int;
        seq![base64_char(a / 4), base64_char((a % 4) * 16), '=', '=']
    } else if bytes.len() == 2 {
        let a = bytes[0] as int;
        let b = bytes[1] as int;
        seq![base64_char(a / 4), base64_char((a % 4) * 16 + b / 16), base64_char((b % 16) * 4), '=']
    } else {
        let a = bytes[0] as int;
        let b = bytes[1] as int;
        let c = bytes[2] as int;
        seq![
            base64_char(a / 4),
            base64_char((a % 4) * 16 + b / 16),
            base64_char((b % 16) * 4 + c / 64),
            base64_char(c % 64),
        ] + base64_standard(bytes.skip(3))
    }
}

/// `base64::engine::general_purpose::STANDARD.encode`: the result is the
/// standard, padded base64 text of the bytes.
#[verifier::external_body]
fn base64_encode(bytes: &[u8]) -> (s: String)
    ensures
        s@ == base64_standard(bytes@),
{
    base64::Engine::encode(&base64::engine::general_purpose::STANDARD, bytes)
}

/// The cursor after a page: the highest of `since` and the rows' sequence numbers.
pub open spec fn cursor_after(since: int, seqs: Seq<i64>) -> int
    decreases seqs.len(),
{
    if seqs.len() == 0 {
        since
    } else {
        let c = cursor_after(since, seqs.drop_last());
        if seqs.last() > c {
            seqs.last() as int
        } else {
            c
        }
    }
}

/// The sequence numbers of container rows.
pub open spec fn container_seqs(rows: Seq<ContainerRow>) -> Seq<i64> {
    rows.map_values(|r: ContainerRow| r.seq)
}

/// The rows whose category is known, in order.
pub open spec fn known_rows(rows: Seq<ContainerRow>) -> Seq<ContainerRow>
    decreases rows.len(),
{
    if rows.len() == 0 {
        Seq::empty()
    } else if 0 <= rows.last().category < 6 {
        known_rows(rows.drop_last()).push(rows.last())
    } else {
        known_rows(rows.drop_last())
    }
}

/// The rows kept for sending are exactly the rows whose category has a name
/// (ids 0 to 5), in their order.
pub proof fn lemma_known_rows_are_named_rows(rows: Seq<ContainerRow>)
    ensures
        known_rows(rows) == rows.filter(|r: ContainerRow| 0 <= r.category < 6),
    decreases rows.len(),
{
    reveal(Seq::filter);
    if rows.len() > 0 {
        lemma_known_rows_are_named_rows(rows.drop_last());
    }
}

/// The container as sent to clients, given its bitmap text; `None` for an
/// unknown category.
pub fn container_dto(player: String, category: i16, cx: i32, cz: i32, bitmap: String) -> (d: Option<
    ContainerDto,
>)
    ensures
        0 <= category < 6 ==> d is Some && d->0.player == player && d->0.category@
            == category_names()[category as int] && d->0.cx == cx && d->0.cz == cz && d->0.bitmap
            == bitmap,
        !(0 <= category < 6) ==> d is None,
{
    match category_name(category) {
        None => None,
        Some(name) => Some(ContainerDto { player, category: name.to_string(), cx, cz, bitmap }),
    }
}

/// Whether a sent container stands for a stored row.
pub open spec fn sends(d: ContainerDto, r: ContainerRow) -> bool {
    &&& d.player@ == r.player@
    &&& d.category@ == category_names()[r.category as int]
    &&& d.cx == r.cx
    &&& d.cz == r.cz
    &&& d.bitmap@ == base64_standard(r.bitmap@)
}

/// One page of a chunk pull: the rows of known category as containers, the
/// cursor to resume from, and whether the page was the last one.
pub fn build_chunk_pull(rows: &Vec<ContainerRow>, since: i64, limit: i64) -> (resp: ChunkPullResponse)
    ensures
        resp.cursor == cursor_after(since as int, container_seqs(rows@)),
        resp.complete == ((rows@.len() as i64) < limit),
        resp.containers@.len() == known_rows(rows@).len(),
        forall|k: int|
            0 <= k < resp.containers@.len() ==> sends(
                #[trigger] resp.containers@[k],
                known_rows(rows@)[k],
            ),
        resp.containers@.len() == rows@.filter(|r: ContainerRow| 0 <= r.category < 6).len(),
        forall|k: int|
            0 <= k < resp.containers@.len() ==> sends(
                #[trigger] resp.containers@[k],
                rows@.filter(|r: ContainerRow| 0 <= r.category < 6)[k],
            ),
{
    proof {
        lemma_known_rows_are_named_rows(rows@);
    }
    let mut cursor = since;
    let complete = (rows.len() as i64) < limit;
    let mut containers: Vec<ContainerDto> = Vec::new();
    let mut i: usize = 0;
    while i < rows.len()
        invariant
            i <= rows@.len(),
            cursor == cursor_after(since as int, container_seqs(rows@.take(i as int))),
            containers@.len() == known_rows(rows@.take(i as int)).len(),
            forall|k: int|
                0 <= k < containers@.len() ==> sends(
                    #[trigger] containers@[k],
                    known_rows(rows@.take(i as int))[k],
                ),
        decreases rows@.len() - i,
    {
        let r = &rows[i];
        proof {
            assert(rows@.take(i + 1).drop_last() =~= rows@.take(i as int));
            assert(container_seqs(rows@.take(i + 1)).drop_last() =~= container_seqs(
                rows@.take(i as int),
            ));
        }
        if r.seq > cursor {
            cursor = r.seq;
        }
        let encoded = base64_encode(r.bitmap.as_slice());
        let ghost before = containers@;
        match container_dto(r.player.clone(), r.category, r.cx, r.cz, encoded) {
            Some(d) => {
                containers.push(d);
                proof {
                    assert forall|k: int| 0 <= k < containers@.len() implies sends(
                        #[trigger] containers@[k],
                        known_rows(rows@.take(i + 1))[k],
                    ) by {
                        if k < before.len() {
                            assert(containers@[k] == before[k]);
                        }
                    }
                }
            },
            None => {},
        }
        i = i + 1;
    }
    proof {
        assert(rows@.take(rows@.len() as int) =~= rows@);
    }
    ChunkPullResponse { containers, cursor, complete }
}

/// The cursor is never behind `since` nor behind any row of the page.
pub proof fn lemma_cursor_bounds(since: int, seqs: Seq<i64>)
    ensures
        cursor_after(since, seqs) >= since,
        forall|k: int| 0 <= k < seqs.len() ==> cursor_after(since, seqs) >= #[trigger] seqs[k],
        cursor_after(since, seqs) == since || exists|k: int|
            0 <= k < seqs.len() && cursor_after(since, seqs) == #[trigger] seqs[k],
    decreases seqs.len(),
{
    if seqs.len() > 0 {
        let p = seqs.drop_last();
        lemma_cursor_bounds(since, p);
        assert forall|k: int| 0 <= k < seqs.len() implies cursor_after(since, seqs) >= #[trigger] seqs[k] by {
            if k < p.len() {
                assert(seqs[k] == p[k]);
            }
        }
        if cursor_after(since, seqs) != since && cursor_after(since, seqs) != seqs.last() {
            let k = choose|k: int| 0 <= k < p.len() && cursor_after(since, p) == #[trigger] p[k];
            assert(seqs[k] == p[k]);
        }
    }
}

// ---------------------------------------------------------------------------
// Waypoints
// ---------------------------------------------------------------------------

/// A waypoint push names a world.
pub fn validate_waypoint_push(req: &WaypointPushRequest) -> (r: Result<(), AppError>)
    ensures
        r is Ok <==> req.world@.len() > 0,
        r matches Err(e) ==> e matches AppError::BadRequest(m) && m@ == "world required"@,
{
    if req.world.as_str().is_empty() {
        return Err(AppError::BadRequest("world required".to_string()));
    }
    Ok(())
}

/// A pushed waypoint is stored only when it has an id.
pub fn waypoint_accepted(wp: &WaypointDto) -> (b: bool)
    ensures
        b == (wp.id@.len() > 0),
{
    !wp.id.as_str().is_empty()
}

/// A stored waypoint changed after the pull cursor.
pub struct WaypointRow {
    pub waypoint: WaypointOut,
    pub seq: i64,
}

/// The sequence numbers of waypoint rows.
pub open spec fn waypoint_seqs(rows: Seq<WaypointRow>) -> Seq<i64> {
    rows.map_values(|r: WaypointRow| r.seq)
}

/// A waypoint pull: every row, in order, and the cursor to resume from.
pub fn build_waypoint_pull(rows: Vec<WaypointRow>, since: i64) -> (resp: WaypointPullResponse)
    ensures
        resp.cursor == cursor_after(since as int, waypoint_seqs(rows@)),
        resp.waypoints@ == rows@.map_values(|r: WaypointRow| r.waypoint),
{
    let ghost all = rows@;
    let mut cursor = since;
    let mut waypoints: Vec<WaypointOut> = Vec::new();
    for r in it: rows.into_iter()
        invariant
            all == it.seq(),
            it.index() <= all.len(),
            cursor == cursor_after(since as int, waypoint_seqs(all.take(it.index() as int))),
            waypoints@ == all.take(it.index() as int).map_values(|r: WaypointRow| r.waypoint),
    {
        proof {
            let n = it.index() as int;
            assert(all.take(n + 1).drop_last() =~= all.take(n));
            assert(waypoint_seqs(all.take(n + 1)).drop_last() =~= waypoint_seqs(all.take(n)));
            assert(all[n] == r);
        }
        if r.seq > cursor {
            cursor = r.seq;
        }
        waypoints.push(r.waypoint);
        proof {
            let n = it.index() as int;
            assert(waypoints@ =~= all.take(n + 1).map_values(|r: WaypointRow| r.waypoint));
        }
    }
    proof {
        assert(all.take(all.len() as int) =~= all);
    }
    WaypointPullResponse { waypoints, cursor }
}

} // verus!
