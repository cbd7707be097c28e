//! The incremental Z-ordered draw-list cache.
//!
//! The cache holds one entry per visible element, sorted non-increasing by
//! depth (back-to-front, painter's algorithm).  Once per frame the owner calls
//! [`CachedDrawOrder::refresh`] with the current membership: the pairs of
//! element identity and depth that are eligible for drawing this frame.
//! Entries whose identity has disappeared are purged, surviving entries have
//! their depth re-read, new identities are spliced in near their sorted
//! position, and a final pass restores the sorted order.

use vstd::prelude::*;

verus! {

use vstd::seq_lib::lemma_multiset_commutative;
use vstd::seq_lib::group_to_multiset_ensures;

/// One element of the draw list: a depth value and an opaque element identity.
///
/// Larger depths are drawn first (further back).  Depth is an order-preserving
/// integer key; the identity is whatever small integer the caller uses to name
/// its elements.
#[derive(Clone, Copy, Debug, PartialEq, Eq, Structural)]
pub struct DrawEntry {
    pub depth: u64,
    pub id: u32,
}

/// Some entry of `s` carries the identity `id`.
pub open spec fn contains_id(s: Seq<DrawEntry>, id: u32) -> bool {
    exists|i: int| 0 <= i < s.len() && s[i].id == id
}

/// No identity occurs twice in `s`.
pub open spec fn distinct_ids(s: Seq<DrawEntry>) -> bool {
    forall|i: int, j: int| 0 <= i < j < s.len() ==> s[i].id != s[j].id
}

/// `s` is sorted non-increasing by depth (ties in either order).
pub open spec fn sorted_desc(s: Seq<DrawEntry>) -> bool {
    forall|i: int, j: int| 0 <= i < j < s.len() ==> s[i].depth >= s[j].depth
}

/// The depth that the membership `m` assigns to `id`: the depth of the first
/// entry of `m` carrying `id`, or `0` when there is none.
pub open spec fn depth_of(m: Seq<DrawEntry>, id: u32) -> u64
    decreases m.len(),
{
    if m.len() == 0 {
        0
    } else if m[0].id == id {
        m[0].depth
    } else {
        depth_of(m.drop_first(), id)
    }
}

/// The entry that the membership `m` prescribes for `id`.
pub open spec fn entry_of(m: Seq<DrawEntry>, id: u32) -> DrawEntry {
    DrawEntry { depth: depth_of(m, id), id: id }
}

// ---------------------------------------------------------------------------
// The refresh pipeline, as spec functions.  `refresh_spec` names the exact
// sequence the executable `refresh` produces: purge entries whose identity
// left the membership while re-reading the depths of the survivors
// (`kept_entries`), splice the newly appeared entries in near their sorted
// position (`fresh_entries` and `insert_all`), then restore sorted order
// (`sort_desc`).
// ---------------------------------------------------------------------------

/// The surviving entries of the old cache `c`, in their old order, each with
/// the depth the membership `m` now assigns to its identity.
pub open spec fn kept_entries(c: Seq<DrawEntry>, m: Seq<DrawEntry>) -> Seq<DrawEntry>
    decreases c.len(),
{
    if c.len() == 0 {
        Seq::empty()
    } else {
        let init = kept_entries(c.drop_last(), m);
        if contains_id(m, c.last().id) {
            init.push(entry_of(m, c.last().id))
        } else {
            init
        }
    }
}

/// The entries of the membership `m`, in membership order, whose identity is
/// new: not present in `base`.
pub open spec fn fresh_entries(base: Seq<DrawEntry>, m: Seq<DrawEntry>) -> Seq<DrawEntry>
    decreases m.len(),
{
    if m.len() == 0 {
        Seq::empty()
    } else {
        let init = fresh_entries(base, m.drop_last());
        if contains_id(base, m.last().id) {
            init
        } else {
            init.push(m.last())
        }
    }
}

/// The first position of `s` whose depth is at most `d`, or `s.len()`.
pub open spec fn first_le(s: Seq<DrawEntry>, d: u64) -> int
    decreases s.len(),
{
    if s.len() == 0 {
        0
    } else if s[0].depth <= d {
        0
    } else {
        1 + first_le(s.drop_first(), d)
    }
}

/// `e` inserted at the first position of `s` whose depth is at most
/// `e.depth`: the approximately sorted insertion the refresh uses for new
/// entries.
pub open spec fn insert_approx(s: Seq<DrawEntry>, e: DrawEntry) -> Seq<DrawEntry> {
    s.insert(first_le(s, e.depth), e)
}

/// Every entry of `xs`, in order, spliced into `s` by `insert_approx`.
pub open spec fn insert_all(s: Seq<DrawEntry>, xs: Seq<DrawEntry>) -> Seq<DrawEntry>
    decreases xs.len(),
{
    if xs.len() == 0 {
        s
    } else {
        insert_all(insert_approx(s, xs[0]), xs.drop_first())
    }
}

/// The first position of `s` whose depth is strictly below `d`, or `s.len()`.
pub open spec fn first_lt(s: Seq<DrawEntry>, d: u64) -> int
    decreases s.len(),
{
    if s.len() == 0 {
        0
    } else if s[0].depth < d {
        0
    } else {
        1 + first_lt(s.drop_first(), d)
    }
}

/// `e` inserted behind every entry of `s` whose depth is at least `e.depth`:
/// one step of a stable insertion sort, descending by depth.
pub open spec fn insort(s: Seq<DrawEntry>, e: DrawEntry) -> Seq<DrawEntry> {
    s.insert(first_lt(s, e.depth), e)
}

/// `s` sorted non-increasing by depth by stable insertion sort.
pub open spec fn sort_desc(s: Seq<DrawEntry>) -> Seq<DrawEntry>
    decreases s.len(),
{
    if s.len() == 0 {
        Seq::empty()
    } else {
        insort(sort_desc(s.drop_last()), s.last())
    }
}

/// The draw list that one refresh produces from the old cache `c` and the
/// membership `m`.
pub open spec fn refresh_spec(c: Seq<DrawEntry>, m: Seq<DrawEntry>) -> Seq<DrawEntry> {
    let kept = kept_entries(c, m);
    sort_desc(insert_all(kept, fresh_entries(kept, m)))
}

/// An incrementally maintained draw list: entries sorted non-increasing by
/// depth, one per currently visible element.
pub struct CachedDrawOrder {
    cache: Vec<DrawEntry>,
}

impl View for CachedDrawOrder {
    type V = Seq<DrawEntry>;

    closed spec fn view(&self) -> Seq<DrawEntry> {
        self.cache@
    }
}

impl CachedDrawOrder {
    /// The cache never holds two entries for one identity.
    pub open spec fn wf(&self) -> bool {
        distinct_ids(self@)
    }

    /// An empty draw list.
    pub fn new() -> (r: Self)
        ensures
            r@ == Seq::<DrawEntry>::empty(),
            r.wf(),
    {
        CachedDrawOrder { cache: Vec::new() }
    }

    /// The current entries, back-to-front.
    pub fn entries(&self) -> (r: &Vec<DrawEntry>)
        ensures
            r@ == self@,
    {
        &self.cache
    }

    /// The number of cached entries.
    pub fn len(&self) -> (r: usize)
        ensures
            r == self@.len(),
    {
        self.cache.len()
    }

    /// One per-frame update pass.  `current` is the membership: one pair of
    /// identity and depth per element eligible for drawing this frame, with
    /// no identity repeated.
    ///
    /// Afterwards the cache holds exactly one entry per membership identity,
    /// carrying the membership's depth, sorted non-increasing by depth; as a
    /// multiset it equals the membership itself.  The exact resulting
    /// sequence is `refresh_spec` of the old cache and the membership.
    #[verifier::loop_isolation(false)]
    pub fn refresh(&mut self, current: &Vec<DrawEntry>)
        requires
            distinct_ids(current@),
            old(self).wf(),
        ensures
            final(self).wf(),
            final(self)@ == refresh_spec(old(self)@, current@),
            sorted_desc(final(self)@),
            forall|x: u32| contains_id(final(self)@, x) <==> contains_id(current@, x),
            forall|i: int|
                0 <= i < final(self)@.len() ==> final(self)@[i] == entry_of(
                    current@,
                    #[trigger] final(self)@[i].id,
                ),
            final(self)@.to_multiset() == current@.to_multiset(),
            final(self)@.len() == current@.len(),
    {
        // Purge entries whose identity left the membership; re-read the
        // depth of every survivor.
        let mut kept: Vec<DrawEntry> = Vec::new();
        let mut i: usize = 0;
        while i < self.cache.len()
            invariant
                i <= self.cache@.len(),
                kept@ == kept_entries(self.cache@.take(i as int), current@),
            decreases self.cache@.len() - i,
        {
            let e = self.cache[i];
            let ghost pre = self.cache@.take(i as int);
            match lookup_depth(current, e.id) {
                Some(d) => {
                    kept.push(DrawEntry { depth: d, id: e.id });
                },
                None => {
                },
            }
            proof {
                let post = self.cache@.take(i as int + 1);
                assert(post.drop_last() =~= pre);
                assert(post.last() == self.cache@[i as int]);
            }
            i += 1;
        }
        proof {
            assert(self.cache@.take(self.cache@.len() as int) =~= self.cache@);
        }
        // Gather the entries of newly appeared identities, in membership
        // order.
        let mut incoming: Vec<DrawEntry> = Vec::new();
        let mut j: usize = 0;
        while j < current.len()
            invariant
                j <= current@.len(),
                incoming@ == fresh_entries(kept@, current@.take(j as int)),
            decreases current@.len() - j,
        {
            let e = current[j];
            let ghost pre = current@.take(j as int);
            if !holds_id(&kept, e.id) {
                incoming.push(e);
            }
            proof {
                let post = current@.take(j as int + 1);
                assert(post.drop_last() =~= pre);
                assert(post.last() == current@[j as int]);
            }
            j += 1;
        }
        proof {
            assert(current@.take(current@.len() as int) =~= current@);
        }
        // Splice each new entry in at the first position whose depth it
        // reaches: cheap, and near-final once the list is near-sorted.
        let ghost base = kept@;
        let ghost fr = incoming@;
        let mut acc = kept;
        let mut k: usize = 0;
        proof {
            assert(fr.skip(0) =~= fr);
        }
        while k < incoming.len()
            invariant
                k <= fr.len(),
                incoming@ == fr,
                insert_all(acc@, fr.skip(k as int)) == insert_all(base, fr),
            decreases fr.len() - k,
        {
            let e = incoming[k];
            let p = find_first_le(&acc, e.depth);
            proof {
                lemma_first_le_bounds(acc@, e.depth);
                assert(fr.skip(k as int)[0] == e);
                assert(fr.skip(k as int).drop_first() =~= fr.skip(k as int + 1));
            }
            acc.insert(p, e);
            k += 1;
        }
        proof {
            assert(fr.skip(fr.len() as int) =~= Seq::<DrawEntry>::empty());
            assert(acc@ == insert_all(base, fr));
        }
        // Restore sorted order: stable insertion sort, descending by depth.
        let ghost pre_sort = acc@;
        let mut out: Vec<DrawEntry> = Vec::new();
        let mut s: usize = 0;
        while s < acc.len()
            invariant
                s <= pre_sort.len(),
                acc@ == pre_sort,
                out@ == sort_desc(pre_sort.take(s as int)),
            decreases pre_sort.len() - s,
        {
            let e = acc[s];
            let p = find_first_lt(&out, e.depth);
            proof {
                lemma_first_lt_props(out@, e.depth);
                let post = pre_sort.take(s as int + 1);
                assert(post.drop_last() =~= pre_sort.take(s as int));
                assert(post.last() == pre_sort[s as int]);
            }
            out.insert(p, e);
            s += 1;
        }
        proof {
            assert(pre_sort.take(pre_sort.len() as int) =~= pre_sort);
        }
        self.cache = out;
        proof {
            assert(self@ == refresh_spec(old(self)@, current@));
            lemma_refresh_spec_props(old(self)@, current@);
        }
    }
}

/// Linear scan for the depth the membership assigns to `id`.
fn lookup_depth(m: &Vec<DrawEntry>, id: u32) -> (r: Option<u64>)
    ensures
        r is Some <==> contains_id(m@, id),
        r matches Some(d) ==> d == depth_of(m@, id),
{
    let mut i: usize = 0;
    while i < m.len()
        invariant
            i <= m@.len(),
            forall|k: int| 0 <= k < i ==> m@[k].id != id,
        decreases m@.len() - i,
    {
        if m[i].id == id {
            proof {
                lemma_depth_of_first_match(m@, id, i as int);
            }
            return Some(m[i].depth);
        }
        i += 1;
    }
    proof {
        if contains_id(m@, id) {
            let k = choose|k: int| 0 <= k < m@.len() && m@[k].id == id;
            assert(m@[k].id != id);
        }
    }
    None
}

/// Whether some entry of `v` carries `id`.
fn holds_id(v: &Vec<DrawEntry>, id: u32) -> (r: bool)
    ensures
        r == contains_id(v@, id),
{
    let mut i: usize = 0;
    while i < v.len()
        invariant
            i <= v@.len(),
            forall|k: int| 0 <= k < i ==> v@[k].id != id,
        decreases v@.len() - i,
    {
        if v[i].id == id {
            return true;
        }
        i += 1;
    }
    proof {
        if contains_id(v@, id) {
            let k = choose|k: int| 0 <= k < v@.len() && v@[k].id == id;
            assert(v@[k].id != id);
        }
    }
    false
}

/// Linear scan for the first position of `v` whose depth is at most `d`.
fn find_first_le(v: &Vec<DrawEntry>, d: u64) -> (p: usize)
    ensures
        p as int == first_le(v@, d),
        p <= v@.len(),
{
    let mut i: usize = 0;
    while i < v.len()
        invariant
            i <= v@.len(),
            forall|k: int| 0 <= k < i ==> v@[k].depth > d,
        decreases v@.len() - i,
    {
        if v[i].depth <= d {
            proof {
                lemma_first_le_is_first(v@, d, i as int);
            }
            return i;
        }
        i += 1;
    }
    proof {
        lemma_first_le_is_first(v@, d, i as int);
    }
    i
}

/// Linear scan for the first position of `v` whose depth is below `d`.
fn find_first_lt(v: &Vec<DrawEntry>, d: u64) -> (p: usize)
    ensures
        p as int == first_lt(v@, d),
        p <= v@.len(),
{
    let mut i: usize = 0;
    while i < v.len()
        invariant
            i <= v@.len(),
            forall|k: int| 0 <= k < i ==> v@[k].depth >= d,
        decreases v@.len() - i,
    {
        if v[i].depth < d {
            proof {
                lemma_first_lt_is_first(v@, d, i as int);
            }
            return i;
        }
        i += 1;
    }
    proof {
        lemma_first_lt_is_first(v@, d, i as int);
    }
    i
}

// ---------------------------------------------------------------------------
// Helper lemmas.
// ---------------------------------------------------------------------------

/// `depth_of` reads the entry at the first index carrying `id`.
proof fn lemma_depth_of_first_match(m: Seq<DrawEntry>, id: u32, i: int)
    requires
        0 <= i < m.len(),
        m[i].id == id,
        forall|k: int| 0 <= k < i ==> m[k].id != id,
    ensures
        depth_of(m, id) == m[i].depth,
        contains_id(m, id),
    decreases i,
{
    if i == 0 {
    } else {
        let m0 = m.drop_first();
        assert(forall|k: int| 0 <= k < i - 1 ==> m0[k].id != id);
        lemma_depth_of_first_match(m0, id, i - 1);
    }
}

/// With distinct identities every entry of `m` is the entry `m` prescribes
/// for its own identity.
proof fn lemma_entries_canonical(m: Seq<DrawEntry>)
    requires
        distinct_ids(m),
    ensures
        forall|k: int| 0 <= k < m.len() ==> m[k] == entry_of(m, #[trigger] m[k].id),
{
    assert forall|k: int| 0 <= k < m.len() implies m[k] == entry_of(m, #[trigger] m[k].id) by {
        lemma_depth_of_first_match(m, m[k].id, k);
    }
}

/// An identity occurs in a non-empty sequence iff it occurs before the last
/// entry or is the last entry's.
proof fn lemma_contains_id_unsnoc(s: Seq<DrawEntry>, x: u32)
    requires
        s.len() > 0,
    ensures
        contains_id(s, x) <==> (contains_id(s.drop_last(), x) || s.last().id == x),
{
    if contains_id(s, x) {
        let i = choose|i: int| 0 <= i < s.len() && s[i].id == x;
        if i < s.len() - 1 {
            assert(s.drop_last()[i].id == x);
        }
    }
    if contains_id(s.drop_last(), x) {
        let i = choose|i: int| 0 <= i < s.drop_last().len() && s.drop_last()[i].id == x;
        assert(s[i].id == x);
    }
}

/// What one insertion does to length, identity membership, identity
/// distinctness and the multiset of entries.
proof fn lemma_insert_effects(s: Seq<DrawEntry>, p: int, e: DrawEntry)
    requires
        0 <= p <= s.len(),
    ensures
        s.insert(p, e).len() == s.len() + 1,
        forall|i: int| 0 <= i < p ==> s.insert(p, e)[i] == s[i],
        s.insert(p, e)[p] == e,
        forall|i: int| p < i <= s.len() ==> s.insert(p, e)[i] == s[i - 1],
        forall|x: u32| contains_id(s.insert(p, e), x) <==> (contains_id(s, x) || e.id == x),
        distinct_ids(s) && !contains_id(s, e.id) ==> distinct_ids(s.insert(p, e)),
        s.insert(p, e).to_multiset() == s.to_multiset().insert(e),
{
    broadcast use group_to_multiset_ensures;

    let t = s.insert(p, e);
    assert forall|x: u32| contains_id(t, x) implies (contains_id(s, x) || e.id == x) by {
        let i = choose|i: int| 0 <= i < t.len() && t[i].id == x;
        if i < p {
            assert(s[i].id == x);
        } else if i > p {
            assert(s[i - 1].id == x);
        }
    }
    assert forall|x: u32| (contains_id(s, x) || e.id == x) implies contains_id(t, x) by {
        if contains_id(s, x) {
            let i = choose|i: int| 0 <= i < s.len() && s[i].id == x;
            if i < p {
                assert(t[i].id == x);
            } else {
                assert(t[i + 1].id == x);
            }
        } else {
            assert(t[p].id == x);
        }
    }
    if distinct_ids(s) && !contains_id(s, e.id) {
        assert forall|i: int, j: int| 0 <= i < j < t.len() implies t[i].id != t[j].id by {
            if i == p {
                if t[j].id == e.id {
                    assert(s[j - 1].id == e.id);
                }
            } else if j == p {
                if t[i].id == e.id {
                    assert(s[i].id == e.id);
                }
            }
        }
    }
    assert(t.to_multiset() == s.to_multiset().insert(e)) by {
        let front = s.subrange(0, p);
        let back = s.subrange(p, s.len() as int);
        lemma_multiset_commutative(front.push(e), back);
        lemma_multiset_commutative(front, back);
        assert(s =~= front + back);
        assert(front.push(e).to_multiset() == front.to_multiset().insert(e));
        assert(t.to_multiset() =~= s.to_multiset().insert(e));
    }
}

/// `first_le` stays within bounds.
proof fn lemma_first_le_bounds(s: Seq<DrawEntry>, d: u64)
    ensures
        0 <= first_le(s, d) <= s.len(),
    decreases s.len(),
{
    if s.len() > 0 && !(s[0].depth <= d) {
        lemma_first_le_bounds(s.drop_first(), d);
    }
}

/// `first_lt` stays within bounds, everything before it has depth at least
/// `d`, and the position itself (when it exists) has depth below `d`.
proof fn lemma_first_lt_props(s: Seq<DrawEntry>, d: u64)
    ensures
        0 <= first_lt(s, d) <= s.len(),
        forall|k: int| 0 <= k < first_lt(s, d) ==> s[k].depth >= d,
        first_lt(s, d) < s.len() ==> s[first_lt(s, d)].depth < d,
    decreases s.len(),
{
    if s.len() > 0 && !(s[0].depth < d) {
        lemma_first_lt_props(s.drop_first(), d);
        assert forall|k: int| 0 <= k < first_lt(s, d) implies s[k].depth >= d by {
            if k > 0 {
                assert(s.drop_first()[k - 1].depth >= d);
            }
        }
    }
}

/// `first_le` is the unique index `i` such that everything before `i` has
/// depth above `d` and `i` is either the end or a position with depth at
/// most `d`.
proof fn lemma_first_le_is_first(s: Seq<DrawEntry>, d: u64, i: int)
    requires
        0 <= i <= s.len(),
        forall|k: int| 0 <= k < i ==> s[k].depth > d,
        i < s.len() ==> s[i].depth <= d,
    ensures
        first_le(s, d) == i,
    decreases s.len(),
{
    if s.len() == 0 {
    } else if s[0].depth <= d {
        assert(i == 0);
    } else {
        assert(i >= 1);
        let s0 = s.drop_first();
        assert(forall|k: int| 0 <= k < i - 1 ==> s0[k].depth > d);
        assert(i - 1 < s0.len() ==> s0[i - 1].depth <= d);
        lemma_first_le_is_first(s0, d, i - 1);
    }
}

/// The surviving entries keep exactly the identities common to the old cache
/// and the membership, stay distinct, and carry the membership's depths.
proof fn lemma_kept_entries_props(c: Seq<DrawEntry>, m: Seq<DrawEntry>)
    requires
        distinct_ids(c),
    ensures
        forall|x: u32|
            contains_id(kept_entries(c, m), x) <==> (contains_id(c, x) && contains_id(m, x)),
        distinct_ids(kept_entries(c, m)),
        forall|i: int|
            0 <= i < kept_entries(c, m).len() ==> kept_entries(c, m)[i] == entry_of(
                m,
                #[trigger] kept_entries(c, m)[i].id,
            ),
    decreases c.len(),
{
    if c.len() > 0 {
        let c0 = c.drop_last();
        assert(distinct_ids(c0));
        lemma_kept_entries_props(c0, m);
        let init = kept_entries(c0, m);
        let ke = kept_entries(c, m);
        assert forall|x: u32| contains_id(ke, x) implies (contains_id(c, x) && contains_id(
            m,
            x,
        )) by {
            lemma_contains_id_unsnoc(c, x);
            if contains_id(m, c.last().id) {
                let en = entry_of(m, c.last().id);
                assert(ke =~= init.insert(init.len() as int, en));
                lemma_insert_effects(init, init.len() as int, en);
            }
        }
        assert forall|x: u32| (contains_id(c, x) && contains_id(m, x)) implies contains_id(
            ke,
            x,
        ) by {
            lemma_contains_id_unsnoc(c, x);
            if contains_id(m, c.last().id) {
                let en = entry_of(m, c.last().id);
                assert(ke =~= init.insert(init.len() as int, en));
                lemma_insert_effects(init, init.len() as int, en);
            }
        }
        if contains_id(m, c.last().id) {
            let en = entry_of(m, c.last().id);
            assert(ke =~= init.insert(init.len() as int, en));
            assert(!contains_id(init, en.id)) by {
                if contains_id(init, en.id) {
                    assert(contains_id(c0, c.last().id));
                    let i = choose|i: int| 0 <= i < c0.len() && c0[i].id == c.last().id;
                    assert(c[i].id == c[c.len() - 1].id);
                }
            }
            lemma_insert_effects(init, init.len() as int, en);
            assert forall|i: int| 0 <= i < ke.len() implies ke[i] == entry_of(
                m,
                #[trigger] ke[i].id,
            ) by {
                if i < init.len() {
                    assert(ke[i] == init[i]);
                } else {
                    assert(ke[i] == en);
                }
            }
        }
    }
}

/// The fresh entries are exactly the membership entries whose identity is
/// absent from `base`, they are distinct, and each is an entry of `m`.
proof fn lemma_fresh_entries_props(base: Seq<DrawEntry>, m: Seq<DrawEntry>)
    ensures
        forall|x: u32|
            contains_id(fresh_entries(base, m), x) <==> (contains_id(m, x) && !contains_id(
                base,
                x,
            )),
        distinct_ids(m) ==> distinct_ids(fresh_entries(base, m)),
        forall|j: int|
            0 <= j < fresh_entries(base, m).len() ==> m.contains(
                #[trigger] fresh_entries(base, m)[j],
            ),
    decreases m.len(),
{
    if m.len() > 0 {
        let m0 = m.drop_last();
        lemma_fresh_entries_props(base, m0);
        let init = fresh_entries(base, m0);
        let fr = fresh_entries(base, m);
        assert forall|j: int| 0 <= j < init.len() implies m.contains(#[trigger] init[j]) by {
            let k = choose|k: int| 0 <= k < m0.len() && m0[k] == init[j];
            assert(m[k] == init[j]);
        }
        if !contains_id(base, m.last().id) {
            assert(fr =~= init.insert(init.len() as int, m.last()));
            lemma_insert_effects(init, init.len() as int, m.last());
            assert(m.contains(m.last())) by {
                assert(m[m.len() - 1] == m.last());
            }
            if distinct_ids(m) {
                assert(distinct_ids(m0));
                assert(!contains_id(init, m.last().id)) by {
                    if contains_id(init, m.last().id) {
                        assert(contains_id(m0, m.last().id));
                        let i = choose|i: int| 0 <= i < m0.len() && m0[i].id == m.last().id;
                        assert(m[i].id == m[m.len() - 1].id);
                    }
                }
            }
        }
        assert forall|x: u32| contains_id(fr, x) implies (contains_id(m, x) && !contains_id(
            base,
            x,
        )) by {
            lemma_contains_id_unsnoc(m, x);
        }
        assert forall|x: u32| (contains_id(m, x) && !contains_id(base, x)) implies contains_id(
            fr,
            x,
        ) by {
            lemma_contains_id_unsnoc(m, x);
        }
    }
}

/// Splicing `xs` into `s` adds exactly the entries of `xs`: the multiset is
/// the union, identity membership is the union, and distinctness survives
/// when the two sides share no identity.
proof fn lemma_insert_all_props(s: Seq<DrawEntry>, xs: Seq<DrawEntry>)
    ensures
        insert_all(s, xs).to_multiset() == s.to_multiset().add(xs.to_multiset()),
        forall|x: u32|
            contains_id(insert_all(s, xs), x) <==> (contains_id(s, x) || contains_id(xs, x)),
        (distinct_ids(s) && distinct_ids(xs) && (forall|x: u32|
            !(contains_id(s, x) && contains_id(xs, x)))) ==> distinct_ids(insert_all(s, xs)),
    decreases xs.len(),
{
    broadcast use group_to_multiset_ensures;

    if xs.len() == 0 {
        assert(xs.to_multiset().len() == 0);
        assert(insert_all(s, xs).to_multiset() =~= s.to_multiset().add(xs.to_multiset()));
        assert(forall|x: u32| !contains_id(xs, x));
    } else {
        let e = xs[0];
        let p = first_le(s, e.depth);
        lemma_first_le_bounds(s, e.depth);
        lemma_insert_effects(s, p, e);
        let s2 = insert_approx(s, e);
        let rest = xs.drop_first();
        lemma_insert_all_props(s2, rest);
        assert(insert_all(s, xs) == insert_all(s2, rest));
        // The multiset of xs splits into its first entry and the rest.
        assert(xs.contains(e));
        assert(rest =~= xs.remove(0));
        assert(rest.to_multiset() == xs.to_multiset().remove(e));
        assert(xs.to_multiset() =~= rest.to_multiset().insert(e));
        assert(insert_all(s, xs).to_multiset() =~= s.to_multiset().add(xs.to_multiset()));
        // Identity membership: xs contributes its first entry and the rest.
        assert forall|x: u32| contains_id(xs, x) implies (e.id == x || contains_id(rest, x)) by {
            let i = choose|i: int| 0 <= i < xs.len() && xs[i].id == x;
            if i > 0 {
                assert(rest[i - 1].id == x);
            }
        }
        assert forall|x: u32| contains_id(rest, x) implies contains_id(xs, x) by {
            let i = choose|i: int| 0 <= i < rest.len() && rest[i].id == x;
            assert(xs[i + 1].id == x);
        }
        if distinct_ids(s) && distinct_ids(xs) && (forall|x: u32|
            !(contains_id(s, x) && contains_id(xs, x))) {
            assert(!contains_id(s, e.id)) by {
                assert(xs[0].id == e.id);
            }
            assert(distinct_ids(s2));
            assert(distinct_ids(rest)) by {
                assert forall|i: int, j: int| 0 <= i < j < rest.len() implies rest[i].id
                    != rest[j].id by {
                    assert(xs[i + 1].id != xs[j + 1].id);
                }
            }
            assert forall|x: u32| !(contains_id(s2, x) && contains_id(rest, x)) by {
                if contains_id(rest, x) {
                    assert(contains_id(xs, x));
                    if xs[0].id == x {
                        let i = choose|i: int| 0 <= i < rest.len() && rest[i].id == x;
                        assert(xs[i + 1].id == xs[0].id);
                    }
                }
            }
        }
    }
}

/// The counterpart of `lemma_first_le_is_first` for `first_lt`.
proof fn lemma_first_lt_is_first(s: Seq<DrawEntry>, d: u64, i: int)
    requires
        0 <= i <= s.len(),
        forall|k: int| 0 <= k < i ==> s[k].depth >= d,
        i < s.len() ==> s[i].depth < d,
    ensures
        first_lt(s, d) == i,
    decreases s.len(),
{
    if s.len() == 0 {
    } else if s[0].depth < d {
        assert(i == 0);
    } else {
        assert(i >= 1);
        let s0 = s.drop_first();
        assert(forall|k: int| 0 <= k < i - 1 ==> s0[k].depth >= d);
        assert(i - 1 < s0.len() ==> s0[i - 1].depth < d);
        lemma_first_lt_is_first(s0, d, i - 1);
    }
}

/// Sorted insertion preserves sortedness.
proof fn lemma_insort_sorted(s: Seq<DrawEntry>, e: DrawEntry)
    requires
        sorted_desc(s),
    ensures
        sorted_desc(insort(s, e)),
{
    let d = e.depth;
    let p = first_lt(s, d);
    lemma_first_lt_props(s, d);
    lemma_insert_effects(s, p, e);
    let t = s.insert(p, e);
    assert forall|i: int, j: int| 0 <= i < j < t.len() implies t[i].depth >= t[j].depth by {
        if i < p && j == p {
            assert(t[i] == s[i]);
        } else if i < p && j > p {
            assert(t[i] == s[i] && t[j] == s[j - 1]);
            if j - 1 >= p && p < s.len() {
                assert(s[j - 1].depth <= s[p].depth || j - 1 == p);
            }
        } else if i == p && j > p {
            assert(t[j] == s[j - 1]);
            if p < s.len() {
                assert(s[j - 1].depth <= s[p].depth || j - 1 == p);
                assert(s[p].depth < d);
            }
        }
    }
}

/// Sorting sorts and permutes.
proof fn lemma_sort_desc_props(s: Seq<DrawEntry>)
    ensures
        sort_desc(s).to_multiset() == s.to_multiset(),
        sorted_desc(sort_desc(s)),
    decreases s.len(),
{
    broadcast use group_to_multiset_ensures;

    if s.len() == 0 {
        assert(sort_desc(s).to_multiset() =~= s.to_multiset());
    } else {
        let s0 = s.drop_last();
        let e = s.last();
        lemma_sort_desc_props(s0);
        let t0 = sort_desc(s0);
        lemma_insort_sorted(t0, e);
        lemma_first_lt_props(t0, e.depth);
        lemma_insert_effects(t0, first_lt(t0, e.depth), e);
        assert(s =~= s0.push(e));
        assert(s.to_multiset() == s0.to_multiset().insert(e));
        assert(sort_desc(s).to_multiset() =~= s.to_multiset());
    }
}

/// Refreshing a cache that already matches the membership and is already
/// sorted changes nothing: the pieces of the pipeline, one by one.
proof fn lemma_kept_identity(c: Seq<DrawEntry>, m: Seq<DrawEntry>)
    requires
        forall|i: int| 0 <= i < c.len() ==> contains_id(m, #[trigger] c[i].id),
        forall|i: int| 0 <= i < c.len() ==> c[i] == entry_of(m, #[trigger] c[i].id),
    ensures
        kept_entries(c, m) == c,
    decreases c.len(),
{
    if c.len() > 0 {
        let c0 = c.drop_last();
        assert forall|i: int| 0 <= i < c0.len() implies contains_id(m, #[trigger] c0[i].id)
            && c0[i] == entry_of(m, c0[i].id) by {
            assert(c0[i] == c[i]);
        }
        lemma_kept_identity(c0, m);
        assert(contains_id(m, c[c.len() - 1].id));
        assert(c.last() == entry_of(m, c.last().id));
        assert(kept_entries(c, m) =~= c);
    }
}

/// When every membership identity is already present in `base`, nothing is
/// fresh.
proof fn lemma_fresh_empty(base: Seq<DrawEntry>, m: Seq<DrawEntry>)
    requires
        forall|j: int| 0 <= j < m.len() ==> contains_id(base, #[trigger] m[j].id),
    ensures
        fresh_entries(base, m) == Seq::<DrawEntry>::empty(),
    decreases m.len(),
{
    if m.len() > 0 {
        let m0 = m.drop_last();
        assert forall|j: int| 0 <= j < m0.len() implies contains_id(base, #[trigger] m0[j].id) by {
            assert(m0[j] == m[j]);
        }
        lemma_fresh_empty(base, m0);
        assert(contains_id(base, m[m.len() - 1].id));
    }
}

/// When no entry of `s` has depth below `d`, `first_lt` falls off the end.
proof fn lemma_first_lt_all_ge(s: Seq<DrawEntry>, d: u64)
    requires
        forall|k: int| 0 <= k < s.len() ==> s[k].depth >= d,
    ensures
        first_lt(s, d) == s.len(),
    decreases s.len(),
{
    if s.len() > 0 {
        let s0 = s.drop_first();
        assert forall|k: int| 0 <= k < s0.len() implies s0[k].depth >= d by {
            assert(s0[k] == s[k + 1]);
        }
        lemma_first_lt_all_ge(s0, d);
    }
}

/// Sorting an already sorted sequence is the identity.
proof fn lemma_sort_identity(s: Seq<DrawEntry>)
    requires
        sorted_desc(s),
    ensures
        sort_desc(s) == s,
    decreases s.len(),
{
    if s.len() == 0 {
        assert(sort_desc(s) =~= s);
    } else {
        let s0 = s.drop_last();
        let e = s.last();
        assert(sorted_desc(s0));
        lemma_sort_identity(s0);
        assert forall|k: int| 0 <= k < s0.len() implies s0[k].depth >= e.depth by {
            assert(s[k].depth >= s[s.len() - 1].depth);
        }
        lemma_first_lt_all_ge(s0, e.depth);
        assert(insort(s0, e) =~= s0.push(e));
        assert(s0.push(e) =~= s);
    }
}

/// Two sequences of distinct identities that agree on which identities they
/// hold, and whose every entry is the one `m` prescribes for its identity,
/// hold the same entries with the same multiplicities.
proof fn lemma_canonical_same_multiset(a: Seq<DrawEntry>, b: Seq<DrawEntry>, m: Seq<DrawEntry>)
    requires
        distinct_ids(a),
        distinct_ids(b),
        forall|x: u32| contains_id(a, x) <==> contains_id(b, x),
        forall|i: int| 0 <= i < a.len() ==> a[i] == entry_of(m, #[trigger] a[i].id),
        forall|j: int| 0 <= j < b.len() ==> b[j] == entry_of(m, #[trigger] b[j].id),
    ensures
        a.to_multiset() == b.to_multiset(),
    decreases a.len(),
{
    broadcast use group_to_multiset_ensures;

    if a.len() == 0 {
        if b.len() > 0 {
            assert(contains_id(b, b[0].id));
            assert(contains_id(a, b[0].id));
            assert(false);
        }
        assert(a.to_multiset() =~= b.to_multiset()) by {
            assert(forall|x: DrawEntry| !a.contains(x) && !b.contains(x));
        }
    } else {
        let e = a.last();
        assert(contains_id(a, e.id)) by {
            assert(a[a.len() - 1].id == e.id);
        }
        let j = choose|j: int| 0 <= j < b.len() && b[j].id == e.id;
        assert(a.last() == entry_of(m, e.id));
        assert(b[j] == entry_of(m, e.id));
        let a0 = a.drop_last();
        let b0 = b.remove(j);
        b.remove_ensures(j);
        // Identity membership of the shortened sequences.
        assert forall|x: u32| contains_id(a0, x) implies (contains_id(a, x) && x != e.id) by {
            let i = choose|i: int| 0 <= i < a0.len() && a0[i].id == x;
            assert(a[i].id == x);
            if x == e.id {
                assert(a[i].id == a[a.len() - 1].id);
            }
        }
        assert forall|x: u32| (contains_id(a, x) && x != e.id) implies contains_id(a0, x) by {
            let i = choose|i: int| 0 <= i < a.len() && a[i].id == x;
            assert(i < a.len() - 1);
            assert(a0[i].id == x);
        }
        assert forall|x: u32| contains_id(b0, x) implies (contains_id(b, x) && x != e.id) by {
            let i = choose|i: int| 0 <= i < b0.len() && b0[i].id == x;
            if i < j {
                assert(b[i].id == x);
                if x == e.id {
                    assert(b[i].id == b[j].id);
                }
            } else {
                assert(b[i + 1].id == x);
                if x == e.id {
                    assert(b[i + 1].id == b[j].id);
                }
            }
        }
        assert forall|x: u32| (contains_id(b, x) && x != e.id) implies contains_id(b0, x) by {
            let i = choose|i: int| 0 <= i < b.len() && b[i].id == x;
            assert(i != j);
            if i < j {
                assert(b0[i].id == x);
            } else {
                assert(b0[i - 1].id == x);
            }
        }
        // Distinctness of the shortened sequences.
        assert(distinct_ids(a0));
        assert forall|i1: int, i2: int| 0 <= i1 < i2 < b0.len() implies b0[i1].id != b0[i2].id by {
            let k1: int = if i1 < j { i1 } else { i1 + 1 };
            let k2: int = if i2 < j { i2 } else { i2 + 1 };
            assert(b0[i1] == b[k1] && b0[i2] == b[k2]);
        }
        lemma_canonical_same_multiset(a0, b0, m);
        assert(a =~= a0.push(e));
        assert(a.to_multiset() == a0.to_multiset().insert(e));
        assert(b0.to_multiset() == b.to_multiset().remove(b[j]));
        assert(b.contains(b[j]));
        assert(b.to_multiset() =~= b0.to_multiset().insert(e));
    }
}

/// What one refresh guarantees, whatever the old cache was: the result holds
/// exactly one entry per membership identity, carrying the membership's
/// depth, sorted non-increasing by depth, and as a multiset it equals the
/// membership itself.
pub proof fn lemma_refresh_spec_props(c: Seq<DrawEntry>, m: Seq<DrawEntry>)
    requires
        distinct_ids(c),
        distinct_ids(m),
    ensures
        distinct_ids(refresh_spec(c, m)),
        sorted_desc(refresh_spec(c, m)),
        forall|x: u32| contains_id(refresh_spec(c, m), x) <==> contains_id(m, x),
        forall|i: int|
            0 <= i < refresh_spec(c, m).len() ==> refresh_spec(c, m)[i] == entry_of(
                m,
                #[trigger] refresh_spec(c, m)[i].id,
            ),
        refresh_spec(c, m).to_multiset() == m.to_multiset(),
        refresh_spec(c, m).len() == m.len(),
{
    broadcast use group_to_multiset_ensures;
    broadcast use vstd::multiset::group_multiset_axioms;

    let kept = kept_entries(c, m);
    lemma_kept_entries_props(c, m);
    let fr = fresh_entries(kept, m);
    lemma_fresh_entries_props(kept, m);
    lemma_entries_canonical(m);
    let pre = insert_all(kept, fr);
    lemma_insert_all_props(kept, fr);
    assert(distinct_ids(pre));
    assert(forall|x: u32| contains_id(pre, x) <==> contains_id(m, x));
    assert forall|i: int| 0 <= i < pre.len() implies pre[i] == entry_of(
        m,
        #[trigger] pre[i].id,
    ) by {
        assert(pre.contains(pre[i]));
        assert(pre.to_multiset().count(pre[i]) > 0);
        if kept.to_multiset().count(pre[i]) > 0 {
            assert(kept.contains(pre[i]));
            let k = choose|k: int| 0 <= k < kept.len() && kept[k] == pre[i];
            assert(kept[k] == entry_of(m, kept[k].id));
        } else {
            assert(fr.to_multiset().count(pre[i]) > 0);
            assert(fr.contains(pre[i]));
            let k = choose|k: int| 0 <= k < fr.len() && fr[k] == pre[i];
            assert(m.contains(fr[k]));
            let km = choose|km: int| 0 <= km < m.len() && m[km] == pre[i];
            assert(m[km] == entry_of(m, m[km].id));
        }
    }
    lemma_canonical_same_multiset(pre, m, m);
    lemma_sort_desc_props(pre);
    let r = refresh_spec(c, m);
    assert(r == sort_desc(pre));
    assert(r.to_multiset() == m.to_multiset());
    // Every entry of the sorted result is still one the membership
    // prescribes.
    assert forall|i: int| 0 <= i < r.len() implies r[i] == entry_of(m, #[trigger] r[i].id) by {
        assert(r.contains(r[i]));
        assert(r.to_multiset().count(r[i]) > 0);
        assert(m.contains(r[i]));
        let km = choose|km: int| 0 <= km < m.len() && m[km] == r[i];
        assert(m[km] == entry_of(m, m[km].id));
    }
    // The sorted result holds exactly the membership's identities.
    assert forall|x: u32| contains_id(r, x) implies contains_id(m, x) by {
        let i = choose|i: int| 0 <= i < r.len() && r[i].id == x;
        assert(r.contains(r[i]));
        assert(r.to_multiset().count(r[i]) > 0);
        assert(m.contains(r[i]));
        let km = choose|km: int| 0 <= km < m.len() && m[km] == r[i];
        assert(m[km].id == x);
    }
    assert forall|x: u32| contains_id(m, x) implies contains_id(r, x) by {
        let km = choose|km: int| 0 <= km < m.len() && m[km].id == x;
        assert(m.contains(m[km]));
        assert(m.to_multiset().count(m[km]) > 0);
        assert(r.contains(m[km]));
        let i = choose|i: int| 0 <= i < r.len() && r[i] == m[km];
        assert(r[i].id == x);
    }
    // Distinct identities survive the sort: two entries with one identity
    // would be one repeated value.
    assert(m.no_duplicates()) by {
        assert forall|i: int, j: int|
            0 <= i < m.len() && 0 <= j < m.len() && i != j implies m[i] != m[j] by {
            if i < j {
                assert(m[i].id != m[j].id);
            } else {
                assert(m[j].id != m[i].id);
            }
        }
    }
    m.lemma_multiset_has_no_duplicates();
    r.lemma_multiset_has_no_duplicates_conv();
    assert forall|i: int, j: int| 0 <= i < j < r.len() implies r[i].id != r[j].id by {
        if r[i].id == r[j].id {
            assert(r[i] == entry_of(m, r[i].id));
            assert(r[j] == entry_of(m, r[j].id));
        }
    }
    assert(r.len() == r.to_multiset().len());
    assert(m.len() == m.to_multiset().len());
}

/// The law that removal is exact: shrinking the membership by one entry
/// shrinks the refreshed cache by exactly that entry, whatever the old
/// cache.  The removed identity is gone; every other identity is unaffected.
pub proof fn lemma_refresh_removes_exactly(c: Seq<DrawEntry>, m: Seq<DrawEntry>, i: int)
    requires
        distinct_ids(c),
        distinct_ids(m),
        0 <= i < m.len(),
    ensures
        refresh_spec(c, m.remove(i)).to_multiset() == refresh_spec(c, m).to_multiset().remove(
            m[i],
        ),
        !contains_id(refresh_spec(c, m.remove(i)), m[i].id),
        forall|x: u32|
            x != m[i].id ==> (contains_id(refresh_spec(c, m.remove(i)), x) <==> contains_id(
                refresh_spec(c, m),
                x,
            )),
{
    broadcast use group_to_multiset_ensures;

    let m0 = m.remove(i);
    m.remove_ensures(i);
    assert(distinct_ids(m0)) by {
        assert forall|i1: int, i2: int| 0 <= i1 < i2 < m0.len() implies m0[i1].id != m0[i2].id by {
            let k1: int = if i1 < i { i1 } else { i1 + 1 };
            let k2: int = if i2 < i { i2 } else { i2 + 1 };
            assert(m0[i1] == m[k1] && m0[i2] == m[k2]);
        }
    }
    lemma_refresh_spec_props(c, m);
    lemma_refresh_spec_props(c, m0);
    assert(m0.to_multiset() == m.to_multiset().remove(m[i]));
    // The removed identity is absent from the shrunken membership.
    assert(!contains_id(m0, m[i].id)) by {
        if contains_id(m0, m[i].id) {
            let k = choose|k: int| 0 <= k < m0.len() && m0[k].id == m[i].id;
            let korig: int = if k < i {
                k
            } else {
                k + 1
            };
            assert(m0[k] == m[korig]);
            assert(korig != i);
            if korig < i {
                assert(m[korig].id != m[i].id);
            } else {
                assert(m[i].id != m[korig].id);
            }
        }
    }
    // Every other identity is unaffected by the removal.
    assert forall|x: u32|
        x != m[i].id implies (contains_id(refresh_spec(c, m0), x) <==> contains_id(
        refresh_spec(c, m),
        x,
    )) by {
        assert(contains_id(refresh_spec(c, m0), x) <==> contains_id(m0, x));
        assert(contains_id(refresh_spec(c, m), x) <==> contains_id(m, x));
        if contains_id(m0, x) {
            let k = choose|k: int| 0 <= k < m0.len() && m0[k].id == x;
            let korig: int = if k < i {
                k
            } else {
                k + 1
            };
            assert(m[korig].id == x);
        }
        if contains_id(m, x) {
            let k = choose|k: int| 0 <= k < m.len() && m[k].id == x;
            assert(k != i);
            if k < i {
                assert(m0[k].id == x);
            } else {
                assert(m0[k - 1].id == x);
            }
        }
    }
}

/// The law of idempotence: refreshing twice with one membership gives the
/// same cache as refreshing once, whatever the old cache.
pub proof fn lemma_refresh_idempotent(c: Seq<DrawEntry>, m: Seq<DrawEntry>)
    requires
        distinct_ids(c),
        distinct_ids(m),
    ensures
        refresh_spec(refresh_spec(c, m), m) == refresh_spec(c, m),
{
    lemma_refresh_spec_props(c, m);
    let r = refresh_spec(c, m);
    assert forall|i: int| 0 <= i < r.len() implies contains_id(m, #[trigger] r[i].id) by {
        assert(r[i].id == r[i].id && 0 <= i < r.len());
        assert(contains_id(r, r[i].id));
    }
    lemma_kept_identity(r, m);
    assert(kept_entries(r, m) == r);
    assert forall|j: int| 0 <= j < m.len() implies contains_id(r, #[trigger] m[j].id) by {
        assert(contains_id(m, m[j].id));
    }
    lemma_fresh_empty(r, m);
    assert(fresh_entries(r, m) == Seq::<DrawEntry>::empty());
    assert(insert_all(r, fresh_entries(r, m)) == r);
    lemma_sort_identity(r);
}

} // verus!
