//! Construction of an immutable, fixed-capacity, open-addressed hash table
//! with Robin Hood displacement, and its rendering as a deterministic
//! textual artifact.

use crate::capacity::capacity_for;
use crate::capacity::is_power_of_two;
use crate::capacity::plan_capacity;
use crate::text::dec_str;
use crate::text::usize_to_string;
use vstd::arithmetic::div_mod::lemma_add_mod_noop_right;
use vstd::arithmetic::div_mod::lemma_mod_add_multiples_vanish;
use vstd::arithmetic::div_mod::lemma_mod_bound;
use vstd::arithmetic::div_mod::lemma_small_mod;
use vstd::arithmetic::div_mod::lemma_sub_mod_noop_right;
use vstd::prelude::*;
use vstd::string::StringExecFns;

verus! {

/// A key stored in the table: it has a textual rendering (used by the
/// serializer) and a default value used to fill unoccupied slots.
pub trait TableKey: Sized {
    /// The characters `render` produces for this key.
    spec fn render_spec(&self) -> Seq<char>;

    /// The key value used to fill unoccupied slots.
    spec fn empty_spec() -> Self;

    /// Render the key as text.
    fn render(&self) -> (s: String)
        ensures
            s@ == self.render_spec(),
    ;

    /// The filler key for unoccupied slots.
    fn empty() -> (k: Self)
        ensures
            k == Self::empty_spec(),
    ;
}

/// A caller-supplied hash capability: a deterministic map from keys to
/// unsigned integers, plus a textual descriptor of the instance for the
/// serialized artifact.
pub trait KeyHasher<K>: Sized {
    /// The hash value `compute` returns for a key.
    spec fn hash_spec(&self, key: K) -> usize;

    /// The characters `describe` produces.
    spec fn describe_spec(&self) -> Seq<char>;

    /// Hash one key; deterministic for the lifetime of the instance.
    fn compute(&self, key: &K) -> (h: usize)
        ensures
            h == self.hash_spec(*key),
    ;

    /// Describe this instance; feeds the trailing descriptor of the
    /// serialized artifact and has no effect on hashing.
    fn describe(&self) -> (s: String)
        ensures
            s@ == self.describe_spec(),
    ;
}

/// A key/value record stored in one table slot.  A slot's record is only
/// meaningful when the slot's stored hash is nonzero.
pub struct Entry<K> {
    pub key: K,
    pub value: String,
}

/// Owns the table being built: two index-aligned sequences of stored hashes
/// and stored entries, both of fixed power-of-two length, plus the hash
/// capability used for every insertion.
pub struct Builder<K, S> {
    pub hashes: Vec<usize>,
    pub entries: Vec<Entry<K>>,
    pub hasher: S,
}

/// Zero is reserved as the empty-slot sentinel, so a genuine hash of zero is
/// remapped to one before storage.
pub open spec fn remap_hash(h: usize) -> usize {
    if h == 0 {
        1usize
    } else {
        h
    }
}

/// The displacement of a stored hash from its ideal slot when it sits at
/// index `pos`: the number of linear-probe steps from the slot the hash
/// selects (its value modulo the capacity) to `pos`, with wraparound.
pub open spec fn slot_displacement(cap: int, stored: usize, pos: int) -> int {
    (pos - stored as int) % cap
}

/// One full Robin Hood probe, mirrored step by step: starting at `pos` with
/// an accumulated displacement `dist`, the candidate `(h, e)` settles in the
/// first empty slot it reaches, displacing on the way any occupant that sits
/// closer to its own ideal slot than the candidate has already traveled.
/// Returns the updated hash and entry sequences and the displacement
/// reported for the insertion.  `fuel` bounds the walk; one unit per probe
/// step suffices whenever the table has an empty slot.
pub open spec fn rh_insert<K>(
    hashes: Seq<usize>,
    entries: Seq<Entry<K>>,
    h: usize,
    e: Entry<K>,
    pos: int,
    dist: nat,
    fuel: nat,
) -> (Seq<usize>, Seq<Entry<K>>, nat)
    decreases fuel,
{
    let cap = hashes.len() as int;
    if fuel == 0 || pos < 0 || pos >= cap || entries.len() != hashes.len() {
        (hashes, entries, dist)
    } else if hashes[pos] == 0 {
        (hashes.update(pos, h), entries.update(pos, e), dist)
    } else {
        let od = slot_displacement(cap, hashes[pos], pos);
        if od < dist {
            rh_insert(
                hashes.update(pos, h),
                entries.update(pos, e),
                hashes[pos],
                entries[pos],
                (pos + 1) % cap,
                (od + 1) as nat,
                (fuel - 1) as nat,
            )
        } else {
            rh_insert(hashes, entries, h, e, (pos + 1) % cap, dist + 1, (fuel - 1) as nat)
        }
    }
}

/// How many slots of a stored-hash sequence are occupied (nonzero).
pub open spec fn occupied_count(s: Seq<usize>) -> nat
    decreases s.len(),
{
    if s.len() == 0 {
        0
    } else {
        occupied_count(s.drop_last()) + if s.last() != 0 {
            1nat
        } else {
            0nat
        }
    }
}

/// Writing a nonzero hash into a slot raises the occupancy by one if the
/// slot was empty and leaves it unchanged if it was occupied.
pub proof fn lemma_occupied_update(s: Seq<usize>, i: int, h: usize)
    requires
        0 <= i < s.len(),
        h != 0,
    ensures
        occupied_count(s.update(i, h)) == occupied_count(s) + if s[i] == 0 {
            1int
        } else {
            0int
        },
    decreases s.len(),
{
    let t = s.update(i, h);
    if i == s.len() - 1 {
        assert(t.drop_last() =~= s.drop_last());
    } else {
        assert(t.drop_last() =~= s.drop_last().update(i, h));
        lemma_occupied_update(s.drop_last(), i, h);
        assert(t.last() == s.last());
    }
}

/// An all-empty table has occupancy zero.
pub proof fn lemma_occupied_all_empty(s: Seq<usize>)
    requires
        forall|i: int| 0 <= i < s.len() ==> s[i] == 0,
    ensures
        occupied_count(s) == 0,
    decreases s.len(),
{
    if s.len() > 0 {
        lemma_occupied_all_empty(s.drop_last());
    }
}

/// A table that is not full has an empty slot.
pub proof fn lemma_not_full_has_empty(s: Seq<usize>)
    requires
        occupied_count(s) < s.len(),
    ensures
        exists|i: int| 0 <= i < s.len() && s[i] == 0,
    decreases s.len(),
{
    if s.last() == 0 {
        assert(0 <= s.len() - 1 < s.len() && s[s.len() - 1] == 0);
    } else {
        lemma_not_full_has_empty(s.drop_last());
        let w = choose|i: int| 0 <= i < s.drop_last().len() && s.drop_last()[i] == 0;
        assert(0 <= w < s.len() && s[w] == 0);
    }
}

impl<K: TableKey, S: KeyHasher<K>> Builder<K, S> {
    /// The table's capacity.
    pub open spec fn cap(&self) -> int {
        self.hashes@.len() as int
    }

    /// Well-formedness: the two sequences are index-aligned, the capacity is
    /// a power of two of at least 32, and every occupied slot stores exactly
    /// the (sentinel-remapped) hash of its entry's key.  `hashes[i] == 0` if
    /// and only if slot `i` is unoccupied.
    pub open spec fn wf(&self) -> bool {
        &&& self.entries@.len() == self.hashes@.len()
        &&& is_power_of_two(self.hashes@.len() as nat)
        &&& self.hashes@.len() >= 32
        &&& forall|i: int|
            0 <= i < self.cap() ==> ((#[trigger] self.hashes@[i]) != 0 ==> self.hashes@[i]
                == remap_hash(self.hasher.hash_spec(self.entries@[i].key)))
    }

    /// Allocate a table for an expected entry count `size`: capacity
    /// `max(32, next_pow2(ceil(size * 10 / 9)))`, every slot empty.
    pub fn with_capacity(size: usize, hasher: S) -> (b: Builder<K, S>)
        requires
            size <= usize::MAX / 20,
        ensures
            b.wf(),
            b.hasher == hasher,
            b.hashes@.len() == capacity_for(size as nat),
            b.entries@.len() == b.hashes@.len(),
            is_power_of_two(b.hashes@.len() as nat),
            b.hashes@.len() >= 32,
            9 * b.hashes@.len() >= 10 * size,
            occupied_count(b.hashes@) == 0,
            forall|i: int| 0 <= i < b.hashes@.len() ==> b.hashes@[i] == 0,
            forall|i: int|
                0 <= i < b.entries@.len() ==> (#[trigger] b.entries@[i]).key == K::empty_spec()
                    && b.entries@[i].value@ == Seq::<char>::empty(),
    {
        let cap = plan_capacity(size);
        let mut hashes: Vec<usize> = Vec::new();
        let mut entries: Vec<Entry<K>> = Vec::new();
        let mut i: usize = 0;
        while i < cap
            invariant
                i <= cap,
                hashes@.len() == i,
                entries@.len() == i,
                forall|j: int| 0 <= j < i ==> hashes@[j] == 0,
                forall|j: int|
                    0 <= j < i ==> (#[trigger] entries@[j]).key == K::empty_spec()
                        && entries@[j].value@ == Seq::<char>::empty(),
            decreases cap - i,
        {
            hashes.push(0);
            entries.push(Entry { key: K::empty(), value: String::new() });
            i = i + 1;
        }
        proof {
            lemma_occupied_all_empty(hashes@);
        }
        Builder { hashes, entries, hasher }
    }

    /// Insert one key/value record by Robin Hood probing, and return the
    /// probe displacement the original candidate ultimately required before
    /// settling.  The table must not be full; no duplicate-key detection is
    /// performed, so inserting a key twice creates two live slots.
    pub fn insert(&mut self, key: K, value: String) -> (dist: usize)
        requires
            old(self).wf(),
            occupied_count(old(self).hashes@) < old(self).hashes@.len(),
        ensures
            final(self).wf(),
            final(self).hasher == old(self).hasher,
            final(self).hashes@.len() == old(self).hashes@.len(),
            final(self).entries@.len() == old(self).entries@.len(),
            occupied_count(final(self).hashes@) == occupied_count(old(self).hashes@) + 1,
            dist < old(self).hashes@.len(),
            ({
                let h = remap_hash(old(self).hasher.hash_spec(key));
                let r = rh_insert(
                    old(self).hashes@,
                    old(self).entries@,
                    h,
                    (Entry { key, value }),
                    (h as int) % old(self).cap(),
                    0nat,
                    old(self).hashes@.len() as nat,
                );
                &&& final(self).hashes@ == r.0
                &&& final(self).entries@ == r.1
                &&& dist == r.2
            }),
    {
        let cap = self.hashes.len();
        let h0 = self.hash(&key);
        let mut hash = h0;
        let mut pos = h0 % cap;
        let mut dist: usize = 0;
        let mut entry = Entry { key, value };

        let ghost target = rh_insert(
            self.hashes@,
            self.entries@,
            hash,
            entry,
            pos as int,
            0nat,
            cap as nat,
        );
        proof {
            lemma_not_full_has_empty(self.hashes@);
        }
        let ghost e_idx = choose|i: int|
            0 <= i < self.hashes@.len() && self.hashes@[i] == 0;
        let ghost pos0 = pos as int;
        let ghost d0 = (e_idx - pos0) % (cap as int);
        let ghost mut t: int = 0;
        proof {
            lemma_mod_bound(e_idx - pos0, cap as int);
            lemma_add_mod_noop_right(pos0, e_idx - pos0, cap as int);
            lemma_small_mod(e_idx as nat, cap as nat);
            lemma_small_mod(pos0 as nat, cap as nat);
        }
        loop
            invariant
                self.hashes@.len() == cap,
                self.entries@.len() == cap,
                old(self).hashes@.len() == cap,
                old(self).entries@.len() == cap,
                cap >= 32,
                is_power_of_two(cap as nat),
                self.hasher == old(self).hasher,
                forall|i: int|
                    0 <= i < cap ==> ((#[trigger] self.hashes@[i]) != 0 ==> self.hashes@[i]
                        == remap_hash(self.hasher.hash_spec(self.entries@[i].key))),
                hash != 0,
                hash == remap_hash(self.hasher.hash_spec(entry.key)),
                pos < cap,
                0 <= t <= d0,
                pos as int == (pos0 + t) % (cap as int),
                dist <= t,
                0 <= e_idx < cap,
                self.hashes@[e_idx] == 0,
                0 <= d0 < cap,
                (pos0 + d0) % (cap as int) == e_idx,
                0 <= pos0 < cap,
                occupied_count(self.hashes@) == occupied_count(old(self).hashes@),
                occupied_count(old(self).hashes@) < cap,
                rh_insert(
                    self.hashes@,
                    self.entries@,
                    hash,
                    entry,
                    pos as int,
                    dist as nat,
                    (cap - t) as nat,
                ) == target,
                target == rh_insert(
                    old(self).hashes@,
                    old(self).entries@,
                    h0,
                    (Entry { key, value }),
                    pos0,
                    0nat,
                    cap as nat,
                ),
                h0 == remap_hash(old(self).hasher.hash_spec(key)),
                pos0 == (h0 as int) % (cap as int),
            decreases d0 - t,
        {
            let ph = self.hashes[pos];
            if ph == 0 {
                let ghost pre_h = self.hashes@;
                self.hashes[pos] = hash;
                self.entries[pos] = entry;
                proof {
                    lemma_occupied_update(pre_h, pos as int, hash);
                }
                return dist;
            }
            let hmod = ph % cap;
            let od = if pos >= hmod {
                pos - hmod
            } else {
                (cap - hmod) + pos
            };
            proof {
                lemma_sub_mod_noop_right(pos as int, ph as int, cap as int);
                if pos >= hmod {
                    lemma_small_mod((pos - hmod) as nat, cap as nat);
                } else {
                    lemma_mod_add_multiples_vanish(pos - hmod as int, cap as int);
                    lemma_small_mod((cap - hmod + pos) as nat, cap as nat);
                }
                assert(od as int == slot_displacement(cap as int, ph, pos as int));
            }
            let ghost pre_h = self.hashes@;
            let ghost pre_e = self.entries@;
            let ghost pre_hash = hash;
            let ghost pre_entry = entry;
            let ghost pre_dist = dist;
            let ghost pre_pos = pos as int;
            if od < dist {
                self.hashes[pos] = hash;
                hash = ph;
                core::mem::swap(&mut self.entries[pos], &mut entry);
                dist = od;
                proof {
                    lemma_occupied_update(pre_h, pre_pos, pre_hash);
                }
            }
            pos = (pos + 1) % cap;
            dist = dist + 1;
            proof {
                t = t + 1;
                lemma_add_mod_noop_right(1, pos0 + t - 1, cap as int);
                assert(pos as int == (pos0 + t) % (cap as int)) by {
                    assert(pos as int == (pre_pos + 1) % (cap as int));
                    assert((pre_pos + 1) % (cap as int) == (1 + (pos0 + t - 1) % (cap as int)) % (
                    cap as int));
                }
                assert(rh_insert(
                    self.hashes@,
                    self.entries@,
                    hash,
                    entry,
                    pos as int,
                    dist as nat,
                    (cap - t) as nat,
                ) == target) by {
                    assert(rh_insert(
                        pre_h,
                        pre_e,
                        pre_hash,
                        pre_entry,
                        pre_pos,
                        pre_dist as nat,
                        (cap - (t - 1)) as nat,
                    ) == target);
                }
            }
        }
    }

    /// Serialize the finished table: stream, in slot order, the full hash
    /// sequence, then the full entry sequence, then the hash-function
    /// descriptor.  The output is a pure function of the table's slot
    /// contents and the descriptor — no reordering, no re-normalization.
    pub fn build(&self) -> (out: String)
        ensures
            out@ == render_output(self.hashes@, self.entries@, self.hasher.describe_spec()),
    {
        let mut out = String::from_str("Map {\n hashes: &[");
        let ghost base0 = out@;
        let n = self.hashes.len();
        let mut i: usize = 0;
        while i < n
            invariant
                n == self.hashes@.len(),
                i <= n,
                out@ + render_hashes_from(self.hashes@, i as int) == base0 + render_hashes_from(
                    self.hashes@,
                    0,
                ),
            decreases n - i,
        {
            let ghost prev = out@;
            let num = usize_to_string(self.hashes[i]);
            out.append(num.as_str());
            out.append(", ");
            proof {
                assert(out@ =~= prev + (dec_str(self.hashes@[i as int] as nat) + ", "@));
                assert(prev + (dec_str(self.hashes@[i as int] as nat) + ", "@)
                    + render_hashes_from(self.hashes@, i as int + 1) =~= prev + render_hashes_from(
                    self.hashes@,
                    i as int,
                ));
            }
            i = i + 1;
        }
        proof {
            assert(out@ =~= base0 + render_hashes_from(self.hashes@, 0));
        }
        out.append("  ],\n  entries: &[  \n");
        let ghost base1 = out@;
        let m = self.entries.len();
        let mut j: usize = 0;
        while j < m
            invariant
                m == self.entries@.len(),
                j <= m,
                out@ + render_entries_from(self.entries@, j as int) == base1
                    + render_entries_from(self.entries@, 0),
            decreases m - j,
        {
            let ghost prev = out@;
            let e = self.entries[j].render();
            out.append(e.as_str());
            out.append(", ");
            proof {
                assert(out@ =~= prev + (entry_str(self.entries@[j as int]) + ", "@));
                assert(prev + (entry_str(self.entries@[j as int]) + ", "@) + render_entries_from(
                    self.entries@,
                    j as int + 1,
                ) =~= prev + render_entries_from(self.entries@, j as int));
            }
            j = j + 1;
        }
        proof {
            assert(out@ =~= base1 + render_entries_from(self.entries@, 0));
        }
        out.append("  ],\n");
        out.append("  hasher: ");
        let d = self.hasher.describe();
        out.append(d.as_str());
        out.append(",");
        out.append("};\n\n");
        proof {
            assert(out@ =~= render_output(
                self.hashes@,
                self.entries@,
                self.hasher.describe_spec(),
            ));
        }
        out
    }

    /// The stored hash for a key: the capability's hash with zero remapped
    /// to one, so it can never equal the empty-slot sentinel.
    fn hash(&self, key: &K) -> (h: usize)
        ensures
            h == remap_hash(self.hasher.hash_spec(*key)),
            h != 0,
    {
        let h = self.hasher.compute(key);
        if h == 0 {
            1
        } else {
            h
        }
    }
}

/// The rendering `"<hash>, "` of every stored hash from index `i` on.
pub open spec fn render_hashes_from(hs: Seq<usize>, i: int) -> Seq<char>
    decreases hs.len() - i,
{
    if i < 0 || i >= hs.len() {
        Seq::empty()
    } else {
        dec_str(hs[i] as nat) + ", "@ + render_hashes_from(hs, i + 1)
    }
}

/// The rendering `"(<key>, <value>)"` of one entry.
pub open spec fn entry_str<K: TableKey>(e: Entry<K>) -> Seq<char> {
    "("@ + e.key.render_spec() + ", "@ + e.value@ + ")"@
}

/// The rendering `"(<key>, <value>), "` of every entry from index `i` on.
pub open spec fn render_entries_from<K: TableKey>(es: Seq<Entry<K>>, i: int) -> Seq<char>
    decreases es.len() - i,
{
    if i < 0 || i >= es.len() {
        Seq::empty()
    } else {
        entry_str(es[i]) + ", "@ + render_entries_from(es, i + 1)
    }
}

/// The serialized artifact: an opening marker, the stored hashes in slot
/// order, the stored entries in slot order, the hash-function descriptor,
/// and a closing marker.  A pure function of the table's slot contents and
/// the descriptor.
pub open spec fn render_output<K: TableKey>(
    hs: Seq<usize>,
    es: Seq<Entry<K>>,
    desc: Seq<char>,
) -> Seq<char> {
    "Map {\n hashes: &["@ + render_hashes_from(hs, 0) + "  ],\n  entries: &[  \n"@
        + render_entries_from(es, 0) + "  ],\n"@ + "  hasher: "@ + desc + ","@ + "};\n\n"@
}

impl<K: TableKey> Entry<K> {
    /// Render this entry as `"(<key>, <value>)"`.
    pub fn render(&self) -> (s: String)
        ensures
            s@ == entry_str(*self),
    {
        let mut out = String::from_str("(");
        let k = self.key.render();
        out.append(k.as_str());
        out.append(", ");
        out.append(self.value.as_str());
        out.append(")");
        proof {
            assert(out@ =~= entry_str(*self));
        }
        out
    }
}

/// The tables and reported displacements after inserting a whole sequence
/// of (pre-remapped, nonzero) hash/entry pairs in order, each by one full
/// Robin Hood probe from its ideal slot.
pub open spec fn rh_insert_all<K>(
    hashes: Seq<usize>,
    entries: Seq<Entry<K>>,
    pairs: Seq<(usize, Entry<K>)>,
) -> (Seq<usize>, Seq<Entry<K>>, Seq<nat>)
    decreases pairs.len(),
{
    if pairs.len() == 0 {
        (hashes, entries, Seq::empty())
    } else {
        let h = pairs[0].0;
        let r = rh_insert(
            hashes,
            entries,
            h,
            pairs[0].1,
            (h as int) % (hashes.len() as int),
            0nat,
            hashes.len() as nat,
        );
        let rest = rh_insert_all(r.0, r.1, pairs.drop_first());
        (rest.0, rest.1, seq![r.2] + rest.2)
    }
}

/// Whether every occupied slot of a table stores exactly the
/// (sentinel-remapped) hash of its entry's key under `hasher`.
pub open spec fn slots_valid<K, S: KeyHasher<K>>(
    hashes: Seq<usize>,
    entries: Seq<Entry<K>>,
    hasher: S,
) -> bool {
    forall|i: int|
        0 <= i < hashes.len() ==> ((#[trigger] hashes[i]) != 0 ==> hashes[i] == remap_hash(
            hasher.hash_spec(entries[i].key)))
}

/// One probe of a candidate whose hash is valid for its key settles in some
/// empty slot: occupancy rises by exactly one and every occupied slot keeps
/// a valid stored hash.  `w` witnesses an empty slot and the fuel covers the
/// walk to it.
proof fn lemma_rh_insert_effect<K, S: KeyHasher<K>>(
    hashes: Seq<usize>,
    entries: Seq<Entry<K>>,
    hasher: S,
    h: usize,
    e: Entry<K>,
    pos: int,
    dist: nat,
    fuel: nat,
    w: int,
)
    requires
        entries.len() == hashes.len(),
        0 <= pos < hashes.len(),
        0 <= w < hashes.len(),
        hashes[w] == 0,
        fuel >= (w - pos) % (hashes.len() as int) + 1,
        h != 0,
        h == remap_hash(hasher.hash_spec(e.key)),
        slots_valid(hashes, entries, hasher),
    ensures
        ({
            let r = rh_insert(hashes, entries, h, e, pos, dist, fuel);
            &&& r.0.len() == hashes.len()
            &&& r.1.len() == entries.len()
            &&& occupied_count(r.0) == occupied_count(hashes) + 1
            &&& slots_valid(r.0, r.1, hasher)
        }),
    decreases (w - pos) % (hashes.len() as int),
{
    let cap = hashes.len() as int;
    let d = (w - pos) % cap;
    lemma_mod_bound(w - pos, cap);
    if hashes[pos] == 0 {
        lemma_occupied_update(hashes, pos, h);
        assert(slots_valid(hashes.update(pos, h), entries.update(pos, e), hasher));
    } else {
        assert(pos != w);
        assert(d != 0) by {
            if w >= pos {
                lemma_small_mod((w - pos) as nat, cap as nat);
            } else {
                lemma_mod_add_multiples_vanish(w - pos, cap);
                lemma_small_mod((w - pos + cap) as nat, cap as nat);
            }
        }
        let pos1 = (pos + 1) % cap;
        assert((w - pos1) % cap == d - 1) by {
            lemma_small_mod(1nat, cap as nat);
            vstd::arithmetic::div_mod::lemma_sub_mod_noop(w - pos, 1, cap);
            lemma_small_mod((d - 1) as nat, cap as nat);
            lemma_sub_mod_noop_right(w, pos + 1, cap);
            if w - pos1 >= 0 {
                lemma_small_mod((w - pos1) as nat, cap as nat);
                lemma_mod_add_multiples_vanish(w - pos1, cap);
            } else {
                lemma_mod_add_multiples_vanish(w - pos1, cap);
                lemma_small_mod((w - pos1 + cap) as nat, cap as nat);
            }
        }
        let od = slot_displacement(cap, hashes[pos], pos);
        if od < dist {
            let hashes1 = hashes.update(pos, h);
            let entries1 = entries.update(pos, e);
            lemma_occupied_update(hashes, pos, h);
            assert(slots_valid(hashes1, entries1, hasher));
            lemma_rh_insert_effect(
                hashes1,
                entries1,
                hasher,
                hashes[pos],
                entries[pos],
                pos1,
                (od + 1) as nat,
                (fuel - 1) as nat,
                w,
            );
        } else {
            lemma_rh_insert_effect(hashes, entries, hasher, h, e, pos1, dist + 1, (fuel - 1) as nat, w);
        }
    }
}

/// Inserting a batch of records into a table with room for all of them
/// leaves exactly one more occupied slot per record — `m` records into a
/// fresh table leave exactly `m` occupied slots — and every occupied slot
/// stores exactly the remapped hash of its entry's key, every unoccupied
/// slot the sentinel 0.  Each record's hash must be the remapped hash of its
/// key, as `insert` computes it.
pub proof fn lemma_insert_all_occupancy<K, S: KeyHasher<K>>(
    hashes: Seq<usize>,
    entries: Seq<Entry<K>>,
    hasher: S,
    pairs: Seq<(usize, Entry<K>)>,
)
    requires
        entries.len() == hashes.len(),
        occupied_count(hashes) + pairs.len() <= hashes.len(),
        slots_valid(hashes, entries, hasher),
        forall|i: int|
            0 <= i < pairs.len() ==> (#[trigger] pairs[i]).0 == remap_hash(
                hasher.hash_spec(pairs[i].1.key),
            ),
    ensures
        ({
            let r = rh_insert_all(hashes, entries, pairs);
            &&& r.0.len() == hashes.len()
            &&& r.1.len() == entries.len()
            &&& occupied_count(r.0) == occupied_count(hashes) + pairs.len()
            &&& slots_valid(r.0, r.1, hasher)
        }),
    decreases pairs.len(),
{
    if pairs.len() > 0 {
        let cap = hashes.len() as int;
        let h = pairs[0].0;
        assert(occupied_count(hashes) < hashes.len());
        lemma_not_full_has_empty(hashes);
        let w = choose|i: int| 0 <= i < hashes.len() && hashes[i] == 0;
        lemma_mod_bound(h as int, cap);
        lemma_mod_bound(w - (h as int) % cap, cap);
        lemma_rh_insert_effect(
            hashes,
            entries,
            hasher,
            h,
            pairs[0].1,
            (h as int) % cap,
            0nat,
            cap as nat,
            w,
        );
        let r1 = rh_insert(hashes, entries, h, pairs[0].1, (h as int) % cap, 0nat, cap as nat);
        let tail = pairs.drop_first();
        assert(forall|i: int| 0 <= i < tail.len() ==> (#[trigger] tail[i]) == pairs[i + 1]);
        lemma_insert_all_occupancy(r1.0, r1.1, hasher, tail);
    }
}

/// One adversarial probe: in a table whose only occupied slots are `0..j`,
/// all storing hashes whose ideal slot is 0, a candidate whose ideal slot is
/// 0 walks past every occupant without displacing any of them and settles in
/// slot `j` — accumulating displacement exactly `j`.
proof fn lemma_adversarial_walk<K>(
    hashes: Seq<usize>,
    entries: Seq<Entry<K>>,
    h: usize,
    e: Entry<K>,
    i: int,
    j: int,
    fuel: nat,
)
    requires
        entries.len() == hashes.len(),
        0 <= i <= j < hashes.len(),
        forall|k: int|
            0 <= k < j ==> (#[trigger] hashes[k]) != 0 && hashes[k] as int % (
            hashes.len() as int) == 0,
        hashes[j] == 0,
        fuel >= j - i + 1,
    ensures
        rh_insert(hashes, entries, h, e, i, i as nat, fuel) == (
            hashes.update(j, h),
            entries.update(j, e),
            j as nat,
        ),
    decreases j - i,
{
    let cap = hashes.len() as int;
    if i == j {
    } else {
        lemma_sub_mod_noop_right(i, hashes[i] as int, cap);
        lemma_small_mod(i as nat, cap as nat);
        assert(slot_displacement(cap, hashes[i], i) == i);
        lemma_small_mod((i + 1) as nat, cap as nat);
        lemma_adversarial_walk(hashes, entries, h, e, i + 1, j, (fuel - 1) as nat);
    }
}

/// Adversarial worst case: with a hash function that maps every key to slot
/// 0, inserting `k` keys into a table whose only occupied slots are `0..j`
/// (themselves all ideal-slot-0 occupants, as a fresh table is with `j == 0`)
/// reports displacements exactly `j, j + 1, ..., j + k - 1` — one entry per
/// displacement value — and leaves the keys packed in slots `j..j + k` in
/// insertion order, with every later slot still empty.
pub proof fn lemma_adversarial_displacements<K>(
    hashes: Seq<usize>,
    entries: Seq<Entry<K>>,
    pairs: Seq<(usize, Entry<K>)>,
    j: int,
)
    requires
        entries.len() == hashes.len(),
        0 <= j,
        j + pairs.len() <= hashes.len(),
        forall|k: int|
            0 <= k < j ==> (#[trigger] hashes[k]) != 0 && hashes[k] as int % (
            hashes.len() as int) == 0,
        forall|k: int| j <= k < hashes.len() ==> hashes[k] == 0,
        forall|i: int|
            0 <= i < pairs.len() ==> (#[trigger] pairs[i]).0 != 0 && pairs[i].0 as int % (
            hashes.len() as int) == 0,
    ensures
        ({
            let r = rh_insert_all(hashes, entries, pairs);
            &&& r.0.len() == hashes.len()
            &&& r.1.len() == entries.len()
            &&& r.2 == Seq::new(pairs.len(), |i: int| (j + i) as nat)
            &&& forall|k: int| 0 <= k < j ==> r.0[k] == hashes[k] && r.1[k] == entries[k]
            &&& forall|i: int|
                0 <= i < pairs.len() ==> r.0[j + i] == (#[trigger] pairs[i]).0 && r.1[j + i]
                    == pairs[i].1
            &&& forall|k: int| j + pairs.len() <= k < hashes.len() ==> r.0[k] == 0
        }),
    decreases pairs.len(),
{
    let r = rh_insert_all(hashes, entries, pairs);
    if pairs.len() == 0 {
        assert(r.2 =~= Seq::new(0, |i: int| (j + i) as nat));
    } else {
        let cap = hashes.len() as int;
        let h = pairs[0].0;
        assert(h != 0 && h as int % cap == 0);
        lemma_adversarial_walk(hashes, entries, h, pairs[0].1, 0, j, cap as nat);
        let hashes1 = hashes.update(j, h);
        let entries1 = entries.update(j, pairs[0].1);
        let tail = pairs.drop_first();
        assert(forall|i: int| 0 <= i < tail.len() ==> (#[trigger] tail[i]) == pairs[i + 1]);
        assert(forall|k: int|
            0 <= k < j + 1 ==> (#[trigger] hashes1[k]) != 0 && hashes1[k] as int % (
            hashes1.len() as int) == 0);
        lemma_adversarial_displacements(hashes1, entries1, tail, j + 1);
        let rest = rh_insert_all(hashes1, entries1, tail);
        assert(r.0 == rest.0 && r.1 == rest.1 && r.2 == seq![j as nat] + rest.2);
        assert(r.2 =~= Seq::new(pairs.len(), |i: int| (j + i) as nat)) by {
            assert(rest.2 == Seq::new(tail.len(), |i: int| (j + 1 + i) as nat));
        }
        assert forall|i: int|
            0 <= i < pairs.len() implies r.0[j + i] == (#[trigger] pairs[i]).0 && r.1[j + i]
            == pairs[i].1 by {
            if i == 0 {
                assert(rest.0[j] == hashes1[j]);
                assert(rest.1[j] == entries1[j]);
            } else {
                assert(tail[i - 1] == pairs[i]);
                assert(rest.0[j + 1 + (i - 1)] == tail[i - 1].0);
                assert(rest.1[j + 1 + (i - 1)] == tail[i - 1].1);
            }
        }
        assert(r.0.len() == hashes.len());
        assert(r.1.len() == entries.len());
        assert forall|k: int| 0 <= k < j implies r.0[k] == hashes[k] && r.1[k] == entries[k] by {
            assert(rest.0[k] == hashes1[k]);
            assert(rest.1[k] == entries1[k]);
        }
        assert(forall|k: int| j + pairs.len() <= k < hashes.len() ==> r.0[k] == 0);
    }
}

/// Determinism of serialization: the artifact depends only on the stored
/// hashes, each entry's rendered key and value text, and the descriptor —
/// two tables that agree on those render byte-identical output.
pub proof fn lemma_render_deterministic<K: TableKey>(
    hs1: Seq<usize>,
    es1: Seq<Entry<K>>,
    d1: Seq<char>,
    hs2: Seq<usize>,
    es2: Seq<Entry<K>>,
    d2: Seq<char>,
)
    requires
        hs1 == hs2,
        d1 == d2,
        es1.len() == es2.len(),
        forall|i: int|
            0 <= i < es1.len() ==> (#[trigger] es1[i]).key.render_spec()
                == es2[i].key.render_spec() && es1[i].value@ == es2[i].value@,
    ensures
        render_output(hs1, es1, d1) == render_output(hs2, es2, d2),
{
    lemma_render_entries_congruent(es1, es2, 0);
}

proof fn lemma_render_entries_congruent<K: TableKey>(es1: Seq<Entry<K>>, es2: Seq<Entry<K>>, i: int)
    requires
        es1.len() == es2.len(),
        forall|k: int|
            0 <= k < es1.len() ==> (#[trigger] es1[k]).key.render_spec()
                == es2[k].key.render_spec() && es1[k].value@ == es2[k].value@,
    ensures
        render_entries_from(es1, i) == render_entries_from(es2, i),
    decreases es1.len() - i,
{
    if 0 <= i < es1.len() {
        assert(entry_str(es1[i]) == entry_str(es2[i]));
        lemma_render_entries_congruent(es1, es2, i + 1);
    }
}

/// Hashes every key to itself; collision-free on distinct keys.
pub struct IdentityHash;

impl KeyHasher<usize> for IdentityHash {
    open spec fn hash_spec(&self, key: usize) -> usize {
        key
    }

    open spec fn describe_spec(&self) -> Seq<char> {
        "IdentityHash"@
    }

    fn compute(&self, key: &usize) -> (h: usize) {
        *key
    }

    fn describe(&self) -> (s: String) {
        String::from_str("IdentityHash")
    }
}

/// Hashes every key to one fixed value: the adversarial worst case, driving
/// every insertion through the same ideal slot.
pub struct ConstHash {
    pub value: usize,
}

impl KeyHasher<usize> for ConstHash {
    open spec fn hash_spec(&self, key: usize) -> usize {
        self.value
    }

    open spec fn describe_spec(&self) -> Seq<char> {
        "ConstHash("@ + dec_str(self.value as nat) + ")"@
    }

    fn compute(&self, key: &usize) -> (h: usize) {
        self.value
    }

    fn describe(&self) -> (s: String) {
        let mut out = String::from_str("ConstHash(");
        let num = usize_to_string(self.value);
        out.append(num.as_str());
        out.append(")");
        proof {
            assert(out@ =~= self.describe_spec());
        }
        out
    }
}

impl TableKey for usize {
    open spec fn render_spec(&self) -> Seq<char> {
        dec_str(*self as nat)
    }

    open spec fn empty_spec() -> Self {
        0usize
    }

    fn render(&self) -> (s: String) {
        usize_to_string(*self)
    }

    fn empty() -> (k: Self) {
        0
    }
}

} // verus!
