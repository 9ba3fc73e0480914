//! A document: one host string and the attributes embedded in it.

use vstd::prelude::*;
use crate::grammar::{
    attributes, first_value, has_pair, retained, rewritten, upsert, option_view, list_view,
    contains_pair, decode, find_value, put, retain, rewrite,
};
use crate::text::{chars_of, same_chars, string_of};

verus! {

/// Reads the system clock with `std::time::SystemTime::now` and has chrono
/// turn it into a `DateTime<Utc>` (its `From<SystemTime>`, which has an arm
/// of its own for a clock that stands before the Unix epoch), then calls
/// `DateTime::timestamp_millis`: the time in milliseconds since the Unix
/// epoch, negative before it. Trusted, and nothing is claimed of the
/// result: it is whatever the clock says.
#[verifier::external_body]
pub(crate) fn clock_millis() -> (now: i64) {
    chrono::DateTime::<chrono::Utc>::from(std::time::SystemTime::now()).timestamp_millis()
}

/// The later of two times.
pub open spec fn later(a: i64, b: i64) -> i64 {
    if a >= b {
        a
    } else {
        b
    }
}

/// The time from `last` to `now` in milliseconds, kept within the range of `i64`.
pub open spec fn elapsed(last: i64, now: i64) -> int {
    let diff = now - last;
    if diff > i64::MAX {
        i64::MAX as int
    } else if diff < i64::MIN {
        i64::MIN as int
    } else {
        diff
    }
}

/// The host string after `key` is set to `value`.
pub open spec fn inserted(s: Seq<char>, d: char, key: char, value: Seq<char>) -> Seq<char> {
    rewritten(s, d, upsert(attributes(s, d), key, value))
}

/// The host string after `key` is deleted. Without the delimiter and `key`
/// side by side in it, the host string stays as it is. Otherwise it is
/// written anew: without the attribute, or, where a value is expected and
/// the attribute holds exactly that value, with it.
pub open spec fn deleted(s: Seq<char>, d: char, key: char, expected: Option<Seq<char>>) -> Seq<char> {
    if has_pair(s, d, key) {
        rewritten(s, d, retained(attributes(s, d), key, expected))
    } else {
        s
    }
}

/// The value that a read of `key` gives.
pub open spec fn fetched(s: Seq<char>, d: char, key: char) -> Option<Seq<char>> {
    if has_pair(s, d, key) {
        first_value(s, d, 0, key)
    } else {
        None
    }
}

/// The characters of an optional string.
pub open spec fn text_view(o: Option<String>) -> Option<Seq<char>> {
    match o {
        Some(v) => Some(v@),
        None => None,
    }
}

/// The characters of an optional string slice.
pub open spec fn slice_view(o: Option<&str>) -> Option<Seq<char>> {
    match o {
        Some(v) => Some(v@),
        None => None,
    }
}

/// A host string with its delimiter and the time of the last access.
#[derive(Debug)]
pub struct Document {
    /// The host string.
    pub name: String,
    /// The delimiter. No operation changes it.
    pub prefix: char,
    /// The time of the last access, in milliseconds since the Unix epoch.
    /// No operation sets it back.
    pub last_access: i64,
}

impl Document {
    /// The host string of this document.
    pub open spec fn host(&self) -> Seq<char> {
        self.name@
    }

    /// The delimiter of this document.
    pub open spec fn delimiter(&self) -> char {
        self.prefix
    }

    /// The time of the last access, in milliseconds since the Unix epoch.
    pub open spec fn accessed(&self) -> i64 {
        self.last_access
    }

    /// A document over `name` with delimiter `prefix`, last accessed at `now`.
    pub fn new_at(name: String, prefix: char, now: i64) -> (doc: Document)
        ensures
            doc.host() == name@,
            doc.delimiter() == prefix,
            doc.accessed() == now,
    {
        Document { name, prefix, last_access: now }
    }

    /// A document over `name` with delimiter `prefix`, last accessed now.
    pub fn new(name: String, prefix: char) -> (doc: Document)
        ensures
            doc.host() == name@,
            doc.delimiter() == prefix,
    {
        let now = clock_millis();
        Document::new_at(name, prefix, now)
    }

    /// The delimiter of this document.
    pub fn prefix(&self) -> (d: char)
        ensures
            d == self.delimiter(),
    {
        self.prefix
    }

    /// The time of the last access, in milliseconds since the Unix epoch.
    pub fn last_access(&self) -> (t: i64)
        ensures
            t == self.accessed(),
    {
        self.last_access
    }

    /// Records an access at `now`. The time of the last access never goes back.
    pub fn touch_at(&mut self, now: i64)
        ensures
            final(self).host() == old(self).host(),
            final(self).delimiter() == old(self).delimiter(),
            final(self).accessed() == later(old(self).accessed(), now),
    {
        if now > self.last_access {
            self.last_access = now;
        }
    }

    /// Sets `key` to `value` at time `now`, whether or not `key` was there.
    pub fn insert_at(&mut self, key: char, value: &str, now: i64)
        ensures
            final(self).host() == inserted(old(self).host(), old(self).delimiter(), key, value@),
            final(self).delimiter() == old(self).delimiter(),
            final(self).accessed() == later(old(self).accessed(), now),
    {
        self.touch_at(now);
        let host = chars_of(self.name.as_str());
        let v = chars_of(value);
        let list = put(decode(&host, self.prefix), key, &v);
        let host = rewrite(&host, self.prefix, &list);
        self.name = string_of(&host);
    }

    /// Sets `key` to `value`, whether or not `key` was there.
    pub fn insert(&mut self, key: char, value: &str)
        ensures
            final(self).host() == inserted(old(self).host(), old(self).delimiter(), key, value@),
            final(self).delimiter() == old(self).delimiter(),
            final(self).accessed() >= old(self).accessed(),
    {
        let now = clock_millis();
        self.insert_at(key, value, now);
    }

    /// Deletes `key` at time `now`: always where no value is expected, else
    /// unless it holds the expected value.
    pub fn delete_at(&mut self, key: char, value: Option<&str>, now: i64)
        ensures
            final(self).host() == deleted(old(self).host(), old(self).delimiter(), key, slice_view(value)),
            final(self).delimiter() == old(self).delimiter(),
            final(self).accessed() == later(old(self).accessed(), now),
    {
        self.touch_at(now);
        let host = chars_of(self.name.as_str());
        if !contains_pair(&host, self.prefix, key) {
            return;
        }
        let expected: Option<Vec<char>> = match value {
            Some(v) => Some(chars_of(v)),
            None => None,
        };
        let list = retain(&decode(&host, self.prefix), key, &expected);
        let host = rewrite(&host, self.prefix, &list);
        self.name = string_of(&host);
    }

    /// Deletes `key`: always where no value is expected, else unless it
    /// holds the expected value.
    pub fn delete(&mut self, key: char, value: Option<&str>)
        ensures
            final(self).host() == deleted(old(self).host(), old(self).delimiter(), key, slice_view(value)),
            final(self).delimiter() == old(self).delimiter(),
            final(self).accessed() >= old(self).accessed(),
    {
        let now = clock_millis();
        self.delete_at(key, value, now);
    }

    /// Reads `key` at time `now`: the value of the first token under it.
    pub fn fetch_at(&mut self, key: char, now: i64) -> (r: Option<String>)
        ensures
            text_view(r) == fetched(old(self).host(), old(self).delimiter(), key),
            final(self).host() == old(self).host(),
            final(self).delimiter() == old(self).delimiter(),
            final(self).accessed() == later(old(self).accessed(), now),
    {
        self.touch_at(now);
        let host = chars_of(self.name.as_str());
        if !contains_pair(&host, self.prefix, key) {
            return None;
        }
        match find_value(&host, self.prefix, key) {
            Some(v) => Some(string_of(&v)),
            None => None,
        }
    }

    /// Reads `key`: the value of the first token under it.
    pub fn fetch(&mut self, key: char) -> (r: Option<String>)
        ensures
            text_view(r) == fetched(old(self).host(), old(self).delimiter(), key),
            final(self).host() == old(self).host(),
            final(self).delimiter() == old(self).delimiter(),
            final(self).accessed() >= old(self).accessed(),
    {
        let now = clock_millis();
        self.fetch_at(key, now)
    }

    /// Tells at time `now` whether the delimiter directly followed by `key`
    /// stands in the host string.
    pub fn exists_key_at(&mut self, key: char, now: i64) -> (r: bool)
        ensures
            r == has_pair(old(self).host(), old(self).delimiter(), key),
            final(self).host() == old(self).host(),
            final(self).delimiter() == old(self).delimiter(),
            final(self).accessed() == later(old(self).accessed(), now),
    {
        self.touch_at(now);
        let host = chars_of(self.name.as_str());
        contains_pair(&host, self.prefix, key)
    }

    /// Tells whether the delimiter directly followed by `key` stands in the
    /// host string.
    pub fn exists_key(&mut self, key: char) -> (r: bool)
        ensures
            r == has_pair(old(self).host(), old(self).delimiter(), key),
            final(self).host() == old(self).host(),
            final(self).delimiter() == old(self).delimiter(),
            final(self).accessed() >= old(self).accessed(),
    {
        let now = clock_millis();
        self.exists_key_at(key, now)
    }

    /// Tells whether the host string is `name`.
    pub fn holds(&self, name: &str) -> (r: bool)
        ensures
            r == (self.host() == name@),
    {
        let mine = chars_of(self.name.as_str());
        let theirs = chars_of(name);
        same_chars(&mine, &theirs)
    }

    /// The time from the last access to `now`, in milliseconds.
    pub fn idle_at(&self, now: i64) -> (r: i64)
        ensures
            r == elapsed(self.accessed(), now),
    {
        let last = self.last_access;
        if now >= last {
            if last >= 0 || now <= i64::MAX + last {
                now - last
            } else {
                i64::MAX
            }
        } else {
            if last <= 0 || now >= i64::MIN + last {
                now - last
            } else {
                i64::MIN
            }
        }
    }

    /// The time since the last access, in milliseconds. It is negative
    /// where the clock has gone back since.
    pub fn since_last_access(&self) -> (r: i64)
        ensures
            exists|now: i64| r == elapsed(self.accessed(), now),
    {
        let now = clock_millis();
        self.idle_at(now)
    }
}

} // verus!
