//! The cache of documents, one for each identity.
//!
//! An identity is a user and a guild. The cache owns the documents. A
//! caller that works on a document takes it out with `lock` and gives it
//! back with `unlock`; while it is out, the entry is locked: a lookup
//! reports it busy and a sweep passes over it.

use vstd::prelude::*;
use crate::cache_laws::{
    law_distinct_kept, law_lookup_reads_as_fresh, law_uniform_kept, lemma_swept_distinct,
};
use crate::document::{clock_millis, elapsed, later, Document};

verus! {

/// The idle time, in milliseconds, beyond which a sweep evicts a document.
pub const IDLE_LIMIT_MS: i64 = 60_000;

/// What a cached document holds.
pub struct Held {
    pub host: Seq<char>,
    pub delimiter: char,
    pub accessed: i64,
}

/// One entry of the cache: an identity and its document, or none while the
/// document is locked.
pub struct Slot {
    pub user: u64,
    pub guild: u64,
    pub held: Option<Held>,
}

/// What a lookup found.
#[derive(Clone, Copy, Debug, PartialEq, Eq, Structural)]
pub enum Lookup {
    /// The cached document holds the current host string and was kept.
    Hit,
    /// A document was made from the current host string.
    Created,
    /// The document is locked; nothing was changed.
    Busy,
}

/// The index of the first entry at or after `i` under the identity, or the
/// length where there is none.
pub open spec fn index_from(v: Seq<Slot>, user: u64, guild: u64, i: int) -> int
    decreases v.len() - i,
{
    if i < 0 || i >= v.len() {
        v.len() as int
    } else if v[i].user == user && v[i].guild == guild {
        i
    } else {
        index_from(v, user, guild, i + 1)
    }
}

/// The index of the entry under the identity, or the length where there is
/// none.
pub open spec fn index_of(v: Seq<Slot>, user: u64, guild: u64) -> int {
    index_from(v, user, guild, 0)
}

/// No identity has two entries.
pub open spec fn distinct(v: Seq<Slot>) -> bool {
    forall|i: int, j: int|
        0 <= i < j < v.len() ==> !((#[trigger] v[i]).user == (#[trigger] v[j]).user && v[i].guild
            == v[j].guild)
}

/// An entry with a document made at `now` from `name`.
pub open spec fn fresh(user: u64, guild: u64, name: Seq<char>, d: char, now: i64) -> Slot {
    Slot { user, guild, held: Some(Held { host: name, delimiter: d, accessed: now }) }
}

/// What a lookup of the identity with the current host string `name` finds.
pub open spec fn outcome(v: Seq<Slot>, user: u64, guild: u64, name: Seq<char>) -> Lookup {
    let i = index_of(v, user, guild);
    if i >= v.len() {
        Lookup::Created
    } else {
        match v[i].held {
            None => Lookup::Busy,
            Some(h) => if h.host == name {
                Lookup::Hit
            } else {
                Lookup::Created
            },
        }
    }
}

/// The cache after a lookup at `now`: a hit keeps the document and records
/// the access, a locked entry stays, and otherwise the entry holds a
/// document made from `name`.
pub open spec fn looked_up(v: Seq<Slot>, user: u64, guild: u64, name: Seq<char>, d: char, now: i64) -> Seq<Slot> {
    let i = index_of(v, user, guild);
    if i >= v.len() {
        v.push(fresh(user, guild, name, d, now))
    } else {
        match v[i].held {
            None => v,
            Some(h) => if h.host == name {
                v.update(
                    i,
                    Slot {
                        user,
                        guild,
                        held: Some(
                            Held {
                                host: h.host,
                                delimiter: h.delimiter,
                                accessed: later(h.accessed, now),
                            },
                        ),
                    },
                )
            } else {
                v.update(i, fresh(user, guild, name, d, now))
            },
        }
    }
}

/// A sweep at `now` evicts the entry: its document is not locked and has
/// been idle beyond the limit.
pub open spec fn evictable(e: Slot, now: i64) -> bool {
    e.held is Some && elapsed(e.held->0.accessed, now) > IDLE_LIMIT_MS
}

/// The cache after a sweep at `now`: the entries that are not evicted, in
/// their order.
pub open spec fn swept(v: Seq<Slot>, now: i64) -> Seq<Slot>
    decreases v.len(),
{
    if v.len() == 0 {
        v
    } else if evictable(v[0], now) {
        swept(v.drop_first(), now)
    } else {
        seq![v[0]] + swept(v.drop_first(), now)
    }
}

/// The cache without the entry under the identity.
pub open spec fn removed(v: Seq<Slot>, user: u64, guild: u64) -> Seq<Slot> {
    let i = index_of(v, user, guild);
    if i >= v.len() {
        v
    } else {
        v.remove(i)
    }
}

/// The cache once the document under the identity is taken out.
pub open spec fn locked(v: Seq<Slot>, user: u64, guild: u64) -> Seq<Slot> {
    let i = index_of(v, user, guild);
    if i >= v.len() {
        v
    } else {
        v.update(i, Slot { user, guild, held: None })
    }
}

/// Every document that the cache holds has the delimiter `d`.
pub open spec fn uniform(v: Seq<Slot>, d: char) -> bool {
    forall|i: int| 0 <= i < v.len() && (#[trigger] v[i]).held is Some ==> v[i].held->0.delimiter == d
}

/// A cache with delimiter `d` takes the document `h` back under the
/// identity: the entry is there and locked, and the document has the
/// delimiter of the cache.
pub open spec fn accepts(v: Seq<Slot>, user: u64, guild: u64, h: Held, d: char) -> bool {
    let i = index_of(v, user, guild);
    i < v.len() && v[i].held is None && h.delimiter == d
}

/// The cache with delimiter `d` once the document `h` is given back under
/// the identity: a locked entry takes a document that has the delimiter of
/// the cache, and nothing else changes.
pub open spec fn unlocked(v: Seq<Slot>, user: u64, guild: u64, h: Held, d: char) -> Seq<Slot> {
    if accepts(v, user, guild, h, d) {
        v.update(index_of(v, user, guild), Slot { user, guild, held: Some(h) })
    } else {
        v
    }
}

/// The cache holds under the identity a document over `name` with the
/// delimiter of the cache.
pub open spec fn serves(c: Cache, user: u64, guild: u64, name: Seq<char>) -> bool {
    let i = index_of(c.slots, user, guild);
    &&& 0 <= i < c.slots.len()
    &&& c.slots[i].held is Some
    &&& c.slots[i].held->0.host == name
    &&& c.slots[i].held->0.delimiter == c.delimiter
}

/// What the document holds.
pub open spec fn held_of(doc: Document) -> Held {
    Held { host: doc.host(), delimiter: doc.delimiter(), accessed: doc.accessed() }
}

/// The index found is that of an entry under the identity, and no entry
/// before it is under the identity.
pub proof fn lemma_index_from(v: Seq<Slot>, user: u64, guild: u64, i: int)
    requires
        0 <= i <= v.len(),
    ensures
        i <= index_from(v, user, guild, i) <= v.len(),
        index_from(v, user, guild, i) < v.len() ==> v[index_from(v, user, guild, i)].user == user
            && v[index_from(v, user, guild, i)].guild == guild,
        forall|j: int|
            i <= j < index_from(v, user, guild, i) ==> !((#[trigger] v[j]).user == user
                && v[j].guild == guild),
    decreases v.len() - i,
{
    if i < v.len() && !(v[i].user == user && v[i].guild == guild) {
        lemma_index_from(v, user, guild, i + 1);
    }
}

/// A client builder that can take a cache in.
pub trait SerenityInit: Sized {
    /// Registers a cache whose documents have the delimiter `prefix`.
    fn register_nicknamedb(self, prefix: char) -> Self;
}

/// One entry of the cache.
pub struct Entry {
    user: u64,
    guild: u64,
    document: Option<Document>,
}

impl Entry {
    /// What the entry holds.
    pub closed spec fn slot(&self) -> Slot {
        Slot {
            user: self.user,
            guild: self.guild,
            held: match self.document {
                Some(doc) => Some(held_of(doc)),
                None => None,
            },
        }
    }
}

/// What a cache holds: the delimiter of its documents, and its entries in
/// their order.
pub struct Cache {
    pub delimiter: char,
    pub slots: Seq<Slot>,
}

/// The cache: the delimiter of its documents, and an entry for each
/// identity that it holds.
pub struct NicknameDb {
    prefix: char,
    entries: Vec<Entry>,
}

/// What the entries hold, in their order.
pub closed spec fn slots_of(entries: Seq<Entry>) -> Seq<Slot> {
    Seq::new(entries.len(), |i: int| entries[i].slot())
}

/// The index of the entry under the identity, or the number of entries
/// where there is none.
fn position_in(entries: &Vec<Entry>, user: u64, guild: u64) -> (i: usize)
    ensures
        i == index_of(slots_of(entries@), user, guild),
        i <= entries@.len(),
        i < entries@.len() ==> slots_of(entries@)[i as int].user == user && slots_of(
            entries@,
        )[i as int].guild == guild,
{
    proof {
        lemma_index_from(slots_of(entries@), user, guild, 0);
    }
    let n: usize = entries.len();
    let mut i: usize = 0;
    while i < n
        invariant
            n == entries@.len(),
            i <= n,
            index_from(slots_of(entries@), user, guild, i as int) == index_of(
                slots_of(entries@),
                user,
                guild,
            ),
        decreases n - i,
    {
        if entries[i].user == user && entries[i].guild == guild {
            return i;
        }
        i += 1;
    }
    i
}

/// Looks the identity up at time `now`, with the current host string
/// `name`, and leaves the entries as they are but for the one looked up.
fn lookup_in(entries: &mut Vec<Entry>, prefix: char, user: u64, guild: u64, name: &str, now: i64) -> (r: Lookup)
    ensures
        r == outcome(slots_of(old(entries)@), user, guild, name@),
        slots_of(final(entries)@) == looked_up(slots_of(old(entries)@), user, guild, name@, prefix, now),
{
    let i = position_in(entries, user, guild);
    if i >= entries.len() {
        let doc = Document::new_at(name.to_owned(), prefix, now);
        entries.push(Entry { user, guild, document: Some(doc) });
        assert(slots_of(entries@) =~= looked_up(slots_of(old(entries)@), user, guild, name@, prefix, now));
        return Lookup::Created;
    }
    let entry = entries.remove(i);
    match entry.document {
        None => {
            entries.insert(i, Entry { user, guild, document: None });
            assert(slots_of(entries@) =~= slots_of(old(entries)@));
            Lookup::Busy
        },
        Some(mut doc) => {
            assert(slots_of(old(entries)@)[i as int].held == Some(held_of(doc)));
            if doc.holds(name) {
                doc.touch_at(now);
                entries.insert(i, Entry { user, guild, document: Some(doc) });
                assert(slots_of(entries@) =~= looked_up(
                    slots_of(old(entries)@),
                    user,
                    guild,
                    name@,
                    prefix,
                    now,
                ));
                Lookup::Hit
            } else {
                let doc = Document::new_at(name.to_owned(), prefix, now);
                entries.insert(i, Entry { user, guild, document: Some(doc) });
                assert(slots_of(entries@) =~= looked_up(
                    slots_of(old(entries)@),
                    user,
                    guild,
                    name@,
                    prefix,
                    now,
                ));
                Lookup::Created
            }
        },
    }
}

/// Evicts at time `now` every document that is not locked and has been
/// idle beyond the limit. Returns how many were evicted.
fn sweep_in(entries: &mut Vec<Entry>, now: i64) -> (evicted: usize)
    ensures
        slots_of(final(entries)@) == swept(slots_of(old(entries)@), now),
        evicted == slots_of(old(entries)@).len() - slots_of(final(entries)@).len(),
{
    let ghost v = slots_of(entries@);
    let mut evicted: usize = 0;
    let mut i: usize = entries.len();
    proof {
        assert(v.subrange(i as int, v.len() as int) =~= Seq::<Slot>::empty());
        assert(slots_of(entries@) =~= v.subrange(0, i as int) + swept(
            v.subrange(i as int, v.len() as int),
            now,
        ));
    }
    while i > 0
        invariant
                            v == slots_of(old(entries)@),
            i <= v.len() <= usize::MAX,
            slots_of(entries@) == v.subrange(0, i as int) + swept(v.subrange(i as int, v.len() as int), now),
            evicted == v.len() - slots_of(entries@).len(),
        decreases i,
    {
        i -= 1;
        let ghost before = slots_of(entries@);
        let ghost tail = v.subrange(i as int, v.len() as int);
        proof {
            assert(tail.drop_first() =~= v.subrange(i + 1, v.len() as int));
            assert(tail[0] == v[i as int]);
            assert(before[i as int] == v[i as int]);
        }
        let idle_out = match &entries[i].document {
            Some(doc) => doc.idle_at(now) > IDLE_LIMIT_MS,
            None => false,
        };
        assert(idle_out == evictable(v[i as int], now));
        if idle_out {
            let _ = entries.remove(i);
            evicted += 1;
            assert(slots_of(entries@) =~= before.remove(i as int));
            assert(slots_of(entries@) =~= v.subrange(0, i as int) + swept(tail, now));
        } else {
            assert(slots_of(entries@) =~= v.subrange(0, i as int) + swept(tail, now));
        }
    }
    proof {
        assert(v.subrange(0, v.len() as int) =~= v);
        assert(slots_of(entries@) =~= swept(v, now));
    }
    evicted
}

/// Drops the entry under the identity, if there is one.
fn remove_in(entries: &mut Vec<Entry>, user: u64, guild: u64) -> (r: bool)
    ensures
        r == (index_of(slots_of(old(entries)@), user, guild) < slots_of(old(entries)@).len()),
        slots_of(final(entries)@) == removed(slots_of(old(entries)@), user, guild),
{
    let i = position_in(entries, user, guild);
    if i >= entries.len() {
        return false;
    }
    let _ = entries.remove(i);
    assert(slots_of(entries@) =~= slots_of(old(entries)@).remove(i as int));
    true
}

/// Takes the document under the identity out, and leaves its entry
/// locked. There is none to take where the identity has no entry or the
/// entry is locked already.
fn lock_in(entries: &mut Vec<Entry>, user: u64, guild: u64) -> (r: Option<Document>)
    ensures
        r is Some == (index_of(slots_of(old(entries)@), user, guild) < slots_of(old(entries)@).len() && slots_of(old(entries)@)[index_of(slots_of(old(entries)@), user, guild)].held is Some),
        r is Some ==> Some(held_of(r->0)) == slots_of(old(entries)@)[index_of(slots_of(old(entries)@), user, guild)].held,
        slots_of(final(entries)@) == locked(slots_of(old(entries)@), user, guild),
{
    let i = position_in(entries, user, guild);
    if i >= entries.len() {
        return None;
    }
    let entry = entries.remove(i);
    entries.insert(i, Entry { user, guild, document: None });
    proof {
        lemma_index_from(slots_of(old(entries)@), user, guild, 0);
        assert(slots_of(entries@) =~= locked(slots_of(old(entries)@), user, guild));
    }
    entry.document
}

/// Gives the document back under the identity. A locked entry takes it
/// if it has the delimiter of the cache; where the entry is gone or
/// holds a document, or the delimiter is another, `doc` is dropped.
fn unlock_in(entries: &mut Vec<Entry>, prefix: char, user: u64, guild: u64, doc: Document) -> (r: bool)
    ensures
        r == accepts(slots_of(old(entries)@), user, guild, held_of(doc), prefix),
        slots_of(final(entries)@) == unlocked(
            slots_of(old(entries)@),
            user,
            guild,
            held_of(doc),
            prefix,
        ),
{
    let i = position_in(entries, user, guild);
    if i >= entries.len() {
        return false;
    }
    if entries[i].document.is_some() {
        return false;
    }
    if doc.prefix() != prefix {
        return false;
    }
    let _ = entries.remove(i);
    entries.insert(i, Entry { user, guild, document: Some(doc) });
    assert(slots_of(entries@) =~= unlocked(slots_of(old(entries)@), user, guild, held_of(doc), prefix));
    true
}

impl View for NicknameDb {
    type V = Cache;

    closed spec fn view(&self) -> Cache {
        Cache {
            delimiter: self.prefix,
            slots: slots_of(self.entries@),
        }
    }
}

impl NicknameDb {
    /// The delimiter of the documents of this cache.
    pub open spec fn delimiter(&self) -> char {
        self@.delimiter
    }

    /// No identity has two entries, and every document that the cache
    /// holds has the delimiter of the cache.
    pub open spec fn wf(&self) -> bool {
        distinct(self@.slots) && uniform(self@.slots, self@.delimiter)
    }

    /// What holds of every cache.
    #[verifier::type_invariant]
    spec fn inv(self) -> bool {
        self.wf()
    }


    /// An empty cache whose documents have the delimiter `prefix`.
    pub fn new(prefix: char) -> (db: NicknameDb)
        ensures
            db@.slots == Seq::<Slot>::empty(),
            db.delimiter() == prefix,
            db.wf(),
    {
        let db = NicknameDb { prefix, entries: Vec::new() };
        assert(db@.slots =~= Seq::<Slot>::empty());
        db
    }

    /// The number of entries. Every cache is well formed, and a caller
    /// learns it here.
    pub fn len(&self) -> (n: usize)
        ensures
            n == self@.slots.len(),
            self.wf(),
    {
        proof {
            use_type_invariant(self);
        }
        self.entries.len()
    }

    /// The index of the entry under the identity, or the number of entries
    /// where there is none.
    pub fn position(&self, user: u64, guild: u64) -> (i: usize)
        ensures
            i == index_of(self@.slots, user, guild),
            i <= self@.slots.len(),
            i < self@.slots.len() ==> self@.slots[i as int].user == user && self@.slots[i as int].guild == guild,
    {
        position_in(&self.entries, user, guild)
    }

    /// Tells whether the cache has an entry under the identity.
    pub fn contains(&self, user: u64, guild: u64) -> (r: bool)
        ensures
            r == (index_of(self@.slots, user, guild) < self@.slots.len()),
    {
        self.position(user, guild) < self.entries.len()
    }

    /// Looks the identity up at time `now`, with the current host string
    /// `name`, and leaves the entries as they are but for the one looked up.
    pub fn lookup_at(&mut self, user: u64, guild: u64, name: &str, now: i64) -> (r: Lookup)
        ensures
            r == outcome(old(self)@.slots, user, guild, name@),
            final(self)@.slots == looked_up(old(self)@.slots, user, guild, name@, old(self).delimiter(), now),
            final(self).delimiter() == old(self).delimiter(),
            final(self).wf(),
    {
        proof {
            use_type_invariant(&*self);
            law_distinct_kept(self@.slots, user, guild, name@, self.prefix, now, arbitrary());
            law_uniform_kept(self@.slots, user, guild, name@, self.prefix, now, arbitrary());
        }
        let mut entries: Vec<Entry> = Vec::new();
        core::mem::swap(&mut entries, &mut self.entries);
        let r = lookup_in(&mut entries, self.prefix, user, guild, name, now);
        self.entries = entries;
        r
    }

    /// Evicts at time `now` every document that is not locked and has been
    /// idle beyond the limit. Returns how many were evicted.
    pub fn sweep_at(&mut self, now: i64) -> (evicted: usize)
        ensures
            final(self)@.slots == swept(old(self)@.slots, now),
            evicted == old(self)@.slots.len() - final(self)@.slots.len(),
            final(self).delimiter() == old(self).delimiter(),
            final(self).wf(),
    {
        proof {
            use_type_invariant(&*self);
            lemma_swept_distinct(self@.slots, now);
            law_uniform_kept(self@.slots, 0, 0, Seq::empty(), self.prefix, now, arbitrary());
        }
        let mut entries: Vec<Entry> = Vec::new();
        core::mem::swap(&mut entries, &mut self.entries);
        let r = sweep_in(&mut entries, now);
        self.entries = entries;
        r
    }

    /// Looks the identity up at time `now`, with the current host string
    /// `name`, then sweeps.
    pub fn get_document_at(&mut self, user: u64, guild: u64, name: &str, now: i64) -> (r: Lookup)
        ensures
            r == outcome(old(self)@.slots, user, guild, name@),
            final(self)@.slots == swept(
                looked_up(old(self)@.slots, user, guild, name@, old(self).delimiter(), now),
                now,
            ),
            final(self).delimiter() == old(self).delimiter(),
            final(self).wf(),
            r != Lookup::Busy ==> serves(final(self)@, user, guild, name@),
    {
        proof {
            use_type_invariant(&*self);
            if outcome(self@.slots, user, guild, name@) != Lookup::Busy {
                law_lookup_reads_as_fresh(self@.slots, user, guild, name@, self.prefix, now);
            }
        }
        let r = self.lookup_at(user, guild, name, now);
        let _ = self.sweep_at(now);
        proof {
            lemma_index_from(self@.slots, user, guild, 0);
        }
        r
    }

    /// Looks the identity up now, with the current host string `name`, then
    /// sweeps.
    pub fn get_document(&mut self, user: u64, guild: u64, name: &str) -> (r: Lookup)
        ensures
            r == outcome(old(self)@.slots, user, guild, name@),
            exists|now: i64|
                final(self)@.slots == swept(
                    looked_up(old(self)@.slots, user, guild, name@, old(self).delimiter(), now),
                    now,
                ),
            final(self).delimiter() == old(self).delimiter(),
            final(self).wf(),
            r != Lookup::Busy ==> serves(final(self)@, user, guild, name@),
    {
        let now = clock_millis();
        self.get_document_at(user, guild, name, now)
    }

    /// Sweeps now. Returns how many documents were evicted.
    pub fn sweep(&mut self) -> (evicted: usize)
        ensures
            exists|now: i64| final(self)@.slots == swept(old(self)@.slots, now),
            evicted == old(self)@.slots.len() - final(self)@.slots.len(),
            final(self).delimiter() == old(self).delimiter(),
            final(self).wf(),
    {
        let now = clock_millis();
        self.sweep_at(now)
    }

    /// Drops the entry under the identity, if there is one.
    pub fn remove(&mut self, user: u64, guild: u64) -> (r: bool)
        ensures
            r == (index_of(old(self)@.slots, user, guild) < old(self)@.slots.len()),
            final(self)@.slots == removed(old(self)@.slots, user, guild),
            final(self).delimiter() == old(self).delimiter(),
            final(self).wf(),
    {
        proof {
            use_type_invariant(&*self);
            law_distinct_kept(self@.slots, user, guild, Seq::empty(), self.prefix, 0, arbitrary());
            law_uniform_kept(self@.slots, user, guild, Seq::empty(), self.prefix, 0, arbitrary());
        }
        let mut entries: Vec<Entry> = Vec::new();
        core::mem::swap(&mut entries, &mut self.entries);
        let r = remove_in(&mut entries, user, guild);
        self.entries = entries;
        r
    }

    /// Takes the document under the identity out, and leaves its entry
    /// locked. There is none to take where the identity has no entry or the
    /// entry is locked already.
    pub fn lock(&mut self, user: u64, guild: u64) -> (r: Option<Document>)
        ensures
            r is Some == (index_of(old(self)@.slots, user, guild) < old(self)@.slots.len() && old(self)@.slots[index_of(old(self)@.slots, user, guild)].held is Some),
            r is Some ==> Some(held_of(r->0)) == old(self)@.slots[index_of(old(self)@.slots, user, guild)].held,
            final(self)@.slots == locked(old(self)@.slots, user, guild),
            final(self).delimiter() == old(self).delimiter(),
            final(self).wf(),
    {
        proof {
            use_type_invariant(&*self);
            law_distinct_kept(self@.slots, user, guild, Seq::empty(), self.prefix, 0, arbitrary());
            law_uniform_kept(self@.slots, user, guild, Seq::empty(), self.prefix, 0, arbitrary());
        }
        let mut entries: Vec<Entry> = Vec::new();
        core::mem::swap(&mut entries, &mut self.entries);
        let r = lock_in(&mut entries, user, guild);
        self.entries = entries;
        r
    }

    /// Gives the document back under the identity. A locked entry takes it
    /// if it has the delimiter of the cache; where the entry is gone or
    /// holds a document, or the delimiter is another, `doc` is dropped.
    pub fn unlock(&mut self, user: u64, guild: u64, doc: Document) -> (r: bool)
        ensures
            r == accepts(old(self)@.slots, user, guild, held_of(doc), old(self).delimiter()),
            final(self)@.slots == unlocked(
                old(self)@.slots,
                user,
                guild,
                held_of(doc),
                old(self).delimiter(),
            ),
            final(self).delimiter() == old(self).delimiter(),
            final(self).wf(),
    {
        proof {
            use_type_invariant(&*self);
            law_distinct_kept(self@.slots, user, guild, Seq::empty(), self.prefix, 0, held_of(doc));
            law_uniform_kept(self@.slots, user, guild, Seq::empty(), self.prefix, 0, held_of(doc));
        }
        let mut entries: Vec<Entry> = Vec::new();
        core::mem::swap(&mut entries, &mut self.entries);
        let r = unlock_in(&mut entries, self.prefix, user, guild, doc);
        self.entries = entries;
        r
    }
}

} // verus!
