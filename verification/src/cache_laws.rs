//! What holds of the cache, whatever it holds.

use vstd::prelude::*;
use crate::document::{elapsed, fetched, later};
use crate::registry::{
    distinct, evictable, fresh, index_from, index_of, locked, looked_up, outcome, removed, swept,
    uniform, unlocked, lemma_index_from, Held, Lookup, Slot,
};

verus! {

/// The first entry under the identity is the one at `i`.
pub proof fn lemma_index_is(v: Seq<Slot>, user: u64, guild: u64, k: int, i: int)
    requires
        0 <= k <= i < v.len(),
        v[i].user == user && v[i].guild == guild,
        forall|j: int| k <= j < i ==> !((#[trigger] v[j]).user == user && v[j].guild == guild),
    ensures
        index_from(v, user, guild, k) == i,
    decreases i - k,
{
    if k < i {
        lemma_index_is(v, user, guild, k + 1, i);
    }
}

/// A sweep of two parts is the sweep of each.
pub proof fn lemma_swept_concat(a: Seq<Slot>, b: Seq<Slot>, now: i64)
    ensures
        swept(a + b, now) == swept(a, now) + swept(b, now),
    decreases a.len(),
{
    if a.len() == 0 {
        assert(a + b =~= b);
        assert(swept(a, now) + swept(b, now) =~= swept(b, now));
    } else {
        assert((a + b).drop_first() =~= a.drop_first() + b);
        assert((a + b)[0] == a[0]);
        lemma_swept_concat(a.drop_first(), b, now);
        if !evictable(a[0], now) {
            assert(seq![a[0]] + (swept(a.drop_first(), now) + swept(b, now)) =~= (seq![a[0]]
                + swept(a.drop_first(), now)) + swept(b, now));
        }
    }
}

/// Eviction. A sweep keeps exactly the entries that are locked or have not
/// been idle beyond the limit: an entry is in the cache after the sweep if
/// and only if it was in it before and is not to be evicted.
pub proof fn law_sweep(v: Seq<Slot>, now: i64)
    ensures
        forall|e: Slot| #[trigger] swept(v, now).contains(e) <==> v.contains(e) && !evictable(e, now),
        forall|i: int| 0 <= i < v.len() && (#[trigger] v[i]).held is None ==> swept(v, now).contains(v[i]),
        swept(v, now).len() <= v.len(),
    decreases v.len(),
{
    let r = swept(v, now);
    if v.len() > 0 {
        let t = v.drop_first();
        let rt = swept(t, now);
        law_sweep(t, now);
        assert forall|e: Slot| #[trigger] r.contains(e) <==> v.contains(e) && !evictable(e, now) by {
            if r.contains(e) {
                let x = choose|x: int| 0 <= x < r.len() && r[x] == e;
                if evictable(v[0], now) {
                    assert(rt.contains(e));
                } else if x > 0 {
                    assert(rt[x - 1] == e);
                    assert(rt.contains(e));
                } else {
                    assert(e == v[0]);
                }
                if e != v[0] || evictable(v[0], now) {
                    assert(t.contains(e));
                    let y = choose|y: int| 0 <= y < t.len() && t[y] == e;
                    assert(v[y + 1] == e);
                }
            }
            if v.contains(e) && !evictable(e, now) {
                let y = choose|y: int| 0 <= y < v.len() && v[y] == e;
                if y == 0 {
                    assert(r[0] == e);
                } else {
                    assert(t[y - 1] == e);
                    assert(t.contains(e));
                    assert(rt.contains(e));
                    let x = choose|x: int| 0 <= x < rt.len() && rt[x] == e;
                    if evictable(v[0], now) {
                        assert(r[x] == e);
                    } else {
                        assert(r[x + 1] == e);
                    }
                }
            }
        }
    }
    assert forall|i: int| 0 <= i < v.len() && (#[trigger] v[i]).held is None implies r.contains(v[i]) by {
        assert(v.contains(v[i]));
    }
}

/// An entry that a sweep does not evict is still the first under its
/// identity afterwards.
pub proof fn lemma_swept_index(v: Seq<Slot>, user: u64, guild: u64, now: i64)
    requires
        index_of(v, user, guild) < v.len(),
        !evictable(v[index_of(v, user, guild)], now),
    ensures
        index_of(swept(v, now), user, guild) < swept(v, now).len(),
        swept(v, now)[index_of(swept(v, now), user, guild)] == v[index_of(v, user, guild)],
{
    let i = index_of(v, user, guild);
    lemma_index_from(v, user, guild, 0);
    let a = v.subrange(0, i);
    let b = v.subrange(i, v.len() as int);
    assert(a + b =~= v);
    lemma_swept_concat(a, b, now);
    let ra = swept(a, now);
    let rb = swept(b, now);
    let r = swept(v, now);
    assert(b[0] == v[i]);
    assert(rb[0] == v[i]);
    law_sweep(a, now);
    assert forall|j: int| 0 <= j < ra.len() implies !((#[trigger] r[j]).user == user && r[j].guild
        == guild) by {
        assert(r[j] == ra[j]);
        assert(ra.contains(ra[j]));
        assert(a.contains(ra[j]));
        let x = choose|x: int| 0 <= x < a.len() && a[x] == ra[j];
        assert(a[x] == v[x]);
    }
    assert(r[ra.len() as int] == rb[0]);
    lemma_index_is(r, user, guild, 0, ra.len() as int);
}

/// The entry under the identity in the cache, once a lookup at `now` and
/// the sweep that follows it are done.
pub open spec fn served(v: Seq<Slot>, user: u64, guild: u64, name: Seq<char>, d: char, now: i64) -> Seq<Slot> {
    swept(looked_up(v, user, guild, name, d, now), now)
}

/// What a lookup leaves under the identity. Unless the entry is locked, the
/// cache then holds a document under the identity whose host string is the
/// current one: the cached document on a hit, with its delimiter, and
/// otherwise one made at `now` from the current host string. The sweep
/// that follows the lookup does not evict it.
pub proof fn law_lookup_entry(v: Seq<Slot>, user: u64, guild: u64, name: Seq<char>, d: char, now: i64)
    requires
        outcome(v, user, guild, name) != Lookup::Busy,
    ensures
        index_of(served(v, user, guild, name, d, now), user, guild) < served(
            v,
            user,
            guild,
            name,
            d,
            now,
        ).len(),
        ({
            let after = served(v, user, guild, name, d, now)[index_of(
                served(v, user, guild, name, d, now),
                user,
                guild,
            )];
            &&& after.user == user
            &&& after.guild == guild
            &&& after.held is Some
            &&& after.held->0.host == name
        }),
        outcome(v, user, guild, name) == Lookup::Created ==> served(
            v,
            user,
            guild,
            name,
            d,
            now,
        )[index_of(served(v, user, guild, name, d, now), user, guild)] == fresh(
            user,
            guild,
            name,
            d,
            now,
        ),
        outcome(v, user, guild, name) == Lookup::Hit ==> ({
            let before = v[index_of(v, user, guild)].held->0;
            let after = served(v, user, guild, name, d, now)[index_of(
                served(v, user, guild, name, d, now),
                user,
                guild,
            )].held->0;
            &&& after.host == name
            &&& after.host == before.host
            &&& after.delimiter == before.delimiter
            &&& after.accessed == later(before.accessed, now)
        }),
{
    let i = index_of(v, user, guild);
    let w = looked_up(v, user, guild, name, d, now);
    lemma_index_from(v, user, guild, 0);
    if i >= v.len() {
        assert(w[i].user == user && w[i].guild == guild);
        assert forall|j: int| 0 <= j < i implies !((#[trigger] w[j]).user == user && w[j].guild
            == guild) by {
            assert(w[j] == v[j]);
        }
    } else {
        assert(w[i].user == user && w[i].guild == guild);
        assert forall|j: int| 0 <= j < i implies !((#[trigger] w[j]).user == user && w[j].guild
            == guild) by {
            assert(w[j] == v[j]);
        }
    }
    lemma_index_is(w, user, guild, 0, i);
    assert(index_of(w, user, guild) == i);
    assert(elapsed(w[i].held->0.accessed, now) <= 0);
    lemma_swept_index(w, user, guild, now);
}

/// Cache coherence. Two lookups of one identity with the same current host
/// string, the first of which did not find the entry locked: the second is
/// a hit, and the document it leaves holds the host string and the
/// delimiter of the document that the first one left.
pub proof fn law_lookup_twice(
    v: Seq<Slot>,
    user: u64,
    guild: u64,
    name: Seq<char>,
    d: char,
    first: i64,
    second: i64,
)
    requires
        outcome(v, user, guild, name) != Lookup::Busy,
    ensures
        outcome(served(v, user, guild, name, d, first), user, guild, name) == Lookup::Hit,
        ({
            let one = served(v, user, guild, name, d, first);
            let two = served(one, user, guild, name, d, second);
            let a = one[index_of(one, user, guild)].held->0;
            let b = two[index_of(two, user, guild)].held->0;
            &&& index_of(one, user, guild) < one.len()
            &&& index_of(two, user, guild) < two.len()
            &&& b.host == a.host
            &&& b.delimiter == a.delimiter
        }),
{
    law_lookup_entry(v, user, guild, name, d, first);
    let one = served(v, user, guild, name, d, first);
    law_lookup_entry(one, user, guild, name, d, second);
}

/// Cache invalidation. A lookup whose current host string is not the one
/// that the cached document holds makes the document anew from the
/// current host string.
pub proof fn law_lookup_other_string(
    v: Seq<Slot>,
    user: u64,
    guild: u64,
    name: Seq<char>,
    d: char,
    now: i64,
)
    requires
        index_of(v, user, guild) < v.len(),
        v[index_of(v, user, guild)].held is Some,
        v[index_of(v, user, guild)].held->0.host != name,
    ensures
        outcome(v, user, guild, name) == Lookup::Created,
        served(v, user, guild, name, d, now)[index_of(
            served(v, user, guild, name, d, now),
            user,
            guild,
        )] == fresh(user, guild, name, d, now),
{
    law_lookup_entry(v, user, guild, name, d, now);
}

/// A sweep leaves no identity with two entries where none had two.
pub proof fn lemma_swept_distinct(v: Seq<Slot>, now: i64)
    requires
        distinct(v),
    ensures
        distinct(swept(v, now)),
    decreases v.len(),
{
    let r = swept(v, now);
    if v.len() > 0 {
        let t = v.drop_first();
        let rt = swept(t, now);
        assert forall|i: int, j: int| 0 <= i < j < t.len() implies !((#[trigger] t[i]).user == (
        #[trigger] t[j]).user && t[i].guild == t[j].guild) by {
            assert(t[i] == v[i + 1] && t[j] == v[j + 1]);
        }
        lemma_swept_distinct(t, now);
        law_sweep(t, now);
        if !evictable(v[0], now) {
            assert forall|i: int, j: int| 0 <= i < j < r.len() implies !((#[trigger] r[i]).user == (
            #[trigger] r[j]).user && r[i].guild == r[j].guild) by {
                assert(r[j] == rt[j - 1]);
                if i == 0 {
                    assert(rt.contains(rt[j - 1]));
                    assert(t.contains(rt[j - 1]));
                    let x = choose|x: int| 0 <= x < t.len() && t[x] == rt[j - 1];
                    assert(t[x] == v[x + 1]);
                    assert(r[0] == v[0]);
                } else {
                    assert(r[i] == rt[i - 1]);
                }
            }
        }
    }
}

/// One entry for each identity. Where no identity has two entries, none
/// has two after a lookup, a sweep, a removal, a lock or an unlock.
pub proof fn law_distinct_kept(
    v: Seq<Slot>,
    user: u64,
    guild: u64,
    name: Seq<char>,
    d: char,
    now: i64,
    h: Held,
)
    requires
        distinct(v),
    ensures
        distinct(looked_up(v, user, guild, name, d, now)),
        distinct(swept(v, now)),
        distinct(removed(v, user, guild)),
        distinct(locked(v, user, guild)),
        distinct(unlocked(v, user, guild, h, d)),
{
    let i = index_of(v, user, guild);
    lemma_index_from(v, user, guild, 0);
    lemma_swept_distinct(v, now);
    let a = looked_up(v, user, guild, name, d, now);
    assert forall|x: int, y: int| 0 <= x < y < a.len() implies !((#[trigger] a[x]).user == (
    #[trigger] a[y]).user && a[x].guild == a[y].guild) by {
        if y < v.len() {
            assert(a[x].user == v[x].user && a[x].guild == v[x].guild);
            assert(a[y].user == v[y].user && a[y].guild == v[y].guild);
        } else {
            assert(a[x] == v[x]);
        }
    }
    let b = removed(v, user, guild);
    assert forall|x: int, y: int| 0 <= x < y < b.len() implies !((#[trigger] b[x]).user == (
    #[trigger] b[y]).user && b[x].guild == b[y].guild) by {
        if i < v.len() {
            let px = if x < i { x } else { x + 1 };
            let py = if y < i { y } else { y + 1 };
            assert(b[x] == v[px] && b[y] == v[py]);
        }
    }
    let c = locked(v, user, guild);
    assert forall|x: int, y: int| 0 <= x < y < c.len() implies !((#[trigger] c[x]).user == (
    #[trigger] c[y]).user && c[x].guild == c[y].guild) by {
        assert(c[x].user == v[x].user && c[x].guild == v[x].guild);
        assert(c[y].user == v[y].user && c[y].guild == v[y].guild);
    }
    let e = unlocked(v, user, guild, h, d);
    assert forall|x: int, y: int| 0 <= x < y < e.len() implies !((#[trigger] e[x]).user == (
    #[trigger] e[y]).user && e[x].guild == e[y].guild) by {
        assert(e[x].user == v[x].user && e[x].guild == v[x].guild);
        assert(e[y].user == v[y].user && e[y].guild == v[y].guild);
    }
}

/// One delimiter. Where every document that the cache holds has the
/// delimiter of the cache, every one has it after a lookup, a sweep, a
/// removal, a lock or an unlock.
pub proof fn law_uniform_kept(
    v: Seq<Slot>,
    user: u64,
    guild: u64,
    name: Seq<char>,
    d: char,
    now: i64,
    h: Held,
)
    requires
        uniform(v, d),
    ensures
        uniform(looked_up(v, user, guild, name, d, now), d),
        uniform(swept(v, now), d),
        uniform(removed(v, user, guild), d),
        uniform(locked(v, user, guild), d),
        uniform(unlocked(v, user, guild, h, d), d),
{
    let i = index_of(v, user, guild);
    lemma_index_from(v, user, guild, 0);
    let a = looked_up(v, user, guild, name, d, now);
    assert forall|x: int| 0 <= x < a.len() && (#[trigger] a[x]).held is Some implies a[x].held->0.delimiter
        == d by {
        if x < v.len() && x != i {
            assert(a[x] == v[x]);
        } else if x < v.len() {
            assert(v[x].held is Some ==> v[x].held->0.delimiter == d);
        }
    }
    let r = swept(v, now);
    law_sweep(v, now);
    assert forall|x: int| 0 <= x < r.len() && (#[trigger] r[x]).held is Some implies r[x].held->0.delimiter
        == d by {
        assert(r.contains(r[x]));
        assert(v.contains(r[x]));
        let y = choose|y: int| 0 <= y < v.len() && v[y] == r[x];
        assert(v[y].held is Some);
    }
    let b = removed(v, user, guild);
    assert forall|x: int| 0 <= x < b.len() && (#[trigger] b[x]).held is Some implies b[x].held->0.delimiter
        == d by {
        if i < v.len() {
            let px = if x < i { x } else { x + 1 };
            assert(b[x] == v[px]);
        }
    }
    let c = locked(v, user, guild);
    assert forall|x: int| 0 <= x < c.len() && (#[trigger] c[x]).held is Some implies c[x].held->0.delimiter
        == d by {
        if x != i {
            assert(c[x] == v[x]);
        }
    }
    let e = unlocked(v, user, guild, h, d);
    assert forall|x: int| 0 <= x < e.len() && (#[trigger] e[x]).held is Some implies e[x].held->0.delimiter
        == d by {
        if x != i {
            assert(e[x] == v[x]);
        }
    }
}

/// The current host string is what counts. In a cache whose documents all
/// have its delimiter, the document that a lookup leaves under the
/// identity, unless the entry is locked, holds the current host string and
/// the delimiter of the cache: a read of any key gives what it gives on a
/// document made from the current host string.
pub proof fn law_lookup_reads_as_fresh(
    v: Seq<Slot>,
    user: u64,
    guild: u64,
    name: Seq<char>,
    d: char,
    now: i64,
)
    requires
        uniform(v, d),
        outcome(v, user, guild, name) != Lookup::Busy,
    ensures
        ({
            let after = served(v, user, guild, name, d, now);
            let doc = after[index_of(after, user, guild)].held->0;
            &&& index_of(after, user, guild) < after.len()
            &&& after[index_of(after, user, guild)].held is Some
            &&& doc.host == name
            &&& doc.delimiter == d
            &&& forall|key: char| fetched(doc.host, doc.delimiter, key) == fetched(name, d, key)
        }),
{
    law_lookup_entry(v, user, guild, name, d, now);
    law_uniform_kept(v, user, guild, name, d, now, arbitrary());
    let w = looked_up(v, user, guild, name, d, now);
    law_uniform_kept(w, user, guild, name, d, now, arbitrary());
    let after = served(v, user, guild, name, d, now);
    let at = index_of(after, user, guild);
    lemma_index_from(after, user, guild, 0);
    assert(after[at].held is Some);
    assert(after[at].held->0.delimiter == d);
}

} // verus!
