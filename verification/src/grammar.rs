//! The token grammar: how attributes stand in a host string.
//!
//! A token is the delimiter, a key character and a maximal, non-empty run of
//! value characters. Tokens are found from left to right and do not overlap.

use vstd::prelude::*;
use crate::classes::{key_char, value_char, permitted_key, permitted_in_value};
use crate::text::{copy_chars, same_chars};

verus! {

/// One attribute: a key and the characters of its value.
pub struct Attribute {
    pub key: char,
    pub value: Vec<char>,
}

impl View for Attribute {
    type V = (char, Seq<char>);

    open spec fn view(&self) -> (char, Seq<char>) {
        (self.key, self.value@)
    }
}

/// The attributes that a list holds, in its order.
pub open spec fn list_view(l: Seq<Attribute>) -> Seq<(char, Seq<char>)> {
    Seq::new(l.len(), |i: int| l[i]@)
}

/// A token starts at `i`.
pub open spec fn token_at(s: Seq<char>, d: char, i: int) -> bool {
    0 <= i && i + 2 < s.len() && s[i] == d && key_char(s[i + 1]) && value_char(s[i + 2], d)
}

/// The end of the run of value characters that starts at `j`.
pub open spec fn value_end(s: Seq<char>, d: char, j: int) -> int
    decreases s.len() - j,
{
    if 0 <= j < s.len() && value_char(s[j], d) {
        value_end(s, d, j + 1)
    } else {
        j
    }
}

/// A run of value characters ends within the text, holds value characters
/// only, and no value character follows it.
pub proof fn lemma_value_end(s: Seq<char>, d: char, j: int)
    requires
        0 <= j <= s.len(),
    ensures
        j <= value_end(s, d, j) <= s.len(),
        forall|x: int| j <= x < value_end(s, d, j) ==> value_char(#[trigger] s[x], d),
        value_end(s, d, j) < s.len() ==> !value_char(s[value_end(s, d, j)], d),
    decreases s.len() - j,
{
    if j < s.len() && value_char(s[j], d) {
        lemma_value_end(s, d, j + 1);
    }
}

/// The list with `k` set to `v`: every entry under `k` takes the value `v`;
/// where there is none, the entry is added at the end.
pub open spec fn upsert(l: Seq<(char, Seq<char>)>, k: char, v: Seq<char>) -> Seq<(char, Seq<char>)> {
    if exists|i: int| 0 <= i < l.len() && (#[trigger] l[i]).0 == k {
        Seq::new(l.len(), |i: int| if l[i].0 == k { (k, v) } else { l[i] })
    } else {
        l.push((k, v))
    }
}

/// The entries of `l` that stay when `k` is deleted: those under another key
/// and, where a value is expected, those that hold exactly that value.
pub open spec fn retained(l: Seq<(char, Seq<char>)>, k: char, expected: Option<Seq<char>>) -> Seq<(char, Seq<char>)>
    decreases l.len(),
{
    if l.len() == 0 {
        l
    } else {
        let rest = retained(l.drop_last(), k, expected);
        if stays(l.last(), k, expected) {
            rest.push(l.last())
        } else {
            rest
        }
    }
}

/// Whether the entry `e` stays when `k` is deleted.
pub open spec fn stays(e: (char, Seq<char>), k: char, expected: Option<Seq<char>>) -> bool {
    e.0 != k || (expected is Some && expected->0 == e.1)
}

/// The attributes decoded from position `i` on, added to `acc`: a later
/// token under a key replaces the value of an earlier one.
pub open spec fn collect(s: Seq<char>, d: char, i: int, acc: Seq<(char, Seq<char>)>) -> Seq<(char, Seq<char>)>
    decreases s.len() - i,
    via collect_decreases
{
    if i < 0 || i >= s.len() {
        acc
    } else if token_at(s, d, i) {
        let e = value_end(s, d, i + 2);
        collect(s, d, e, upsert(acc, s[i + 1], s.subrange(i + 2, e)))
    } else {
        collect(s, d, i + 1, acc)
    }
}

#[via_fn]
proof fn collect_decreases(s: Seq<char>, d: char, i: int, acc: Seq<(char, Seq<char>)>) {
    if 0 <= i < s.len() && token_at(s, d, i) {
        lemma_value_end(s, d, i + 2);
    }
}

/// The attributes that the host string `s` holds.
pub open spec fn attributes(s: Seq<char>, d: char) -> Seq<(char, Seq<char>)> {
    collect(s, d, 0, Seq::empty())
}

/// The text from position `i` on that belongs to no token, added to `acc`.
pub open spec fn strip(s: Seq<char>, d: char, i: int, acc: Seq<char>) -> Seq<char>
    decreases s.len() - i,
    via strip_decreases
{
    if i < 0 || i >= s.len() {
        acc
    } else if token_at(s, d, i) {
        strip(s, d, value_end(s, d, i + 2), acc)
    } else {
        strip(s, d, i + 1, acc.push(s[i]))
    }
}

#[via_fn]
proof fn strip_decreases(s: Seq<char>, d: char, i: int, acc: Seq<char>) {
    if 0 <= i < s.len() && token_at(s, d, i) {
        lemma_value_end(s, d, i + 2);
    }
}

/// The free text of the host string `s`: what is left when every token is
/// taken out.
pub open spec fn residual(s: Seq<char>, d: char) -> Seq<char> {
    strip(s, d, 0, Seq::empty())
}

/// The value of the first token under `key` that starts at or after `i`.
pub open spec fn first_value(s: Seq<char>, d: char, i: int, key: char) -> Option<Seq<char>>
    decreases s.len() - i,
    via first_value_decreases
{
    if i < 0 || i >= s.len() {
        None
    } else if token_at(s, d, i) {
        let e = value_end(s, d, i + 2);
        if s[i + 1] == key {
            Some(s.subrange(i + 2, e))
        } else {
            first_value(s, d, e, key)
        }
    } else {
        first_value(s, d, i + 1, key)
    }
}

#[via_fn]
proof fn first_value_decreases(s: Seq<char>, d: char, i: int, key: char) {
    if 0 <= i < s.len() && token_at(s, d, i) {
        lemma_value_end(s, d, i + 2);
    }
}

/// The delimiter directly followed by `key` stands somewhere in `s`.
pub open spec fn has_pair(s: Seq<char>, d: char, key: char) -> bool {
    exists|i: int| 0 <= i && i + 1 < s.len() && #[trigger] s[i] == d && s[i + 1] == key
}

/// The tokens of the list `l`, one after the other.
pub open spec fn encoded(l: Seq<(char, Seq<char>)>, d: char) -> Seq<char>
    decreases l.len(),
{
    if l.len() == 0 {
        Seq::empty()
    } else {
        seq![d, l[0].0] + l[0].1 + encoded(l.drop_first(), d)
    }
}

/// The host string that holds the free text of `s` and the attributes `l`:
/// the trimmed free text, one blank, the tokens.
pub open spec fn rewritten(s: Seq<char>, d: char, l: Seq<(char, Seq<char>)>) -> Seq<char> {
    crate::text::trimmed(residual(s, d)) + seq![' '] + encoded(l, d)
}

/// Tells whether a token starts at `i`.
pub fn token_starts(s: &Vec<char>, d: char, i: usize) -> (r: bool)
    ensures
        r == token_at(s@, d, i as int),
{
    let n: usize = s.len();
    if i >= n || n - i <= 2 {
        return false;
    }
    s[i] == d && permitted_key(s[i + 1]) && permitted_in_value(s[i + 2], d)
}

/// The end of the run of value characters that starts at `j`.
pub fn run_end(s: &Vec<char>, d: char, j: usize) -> (e: usize)
    requires
        j <= s@.len(),
    ensures
        e == value_end(s@, d, j as int),
        j <= e <= s@.len(),
{
    let n: usize = s.len();
    let mut e: usize = j;
    while e < n && permitted_in_value(s[e], d)
        invariant
            n == s@.len(),
            j <= e <= n,
            value_end(s@, d, e as int) == value_end(s@, d, j as int),
        decreases n - e,
    {
        e += 1;
    }
    e
}

/// The characters of `s` from `a` up to `b`.
pub fn slice_chars(s: &Vec<char>, a: usize, b: usize) -> (r: Vec<char>)
    requires
        a <= b <= s@.len(),
    ensures
        r@ == s@.subrange(a as int, b as int),
{
    let mut r: Vec<char> = Vec::new();
    let mut i: usize = a;
    while i < b
        invariant
            a <= i <= b <= s@.len(),
            r@ == s@.subrange(a as int, i as int),
        decreases b - i,
    {
        r.push(s[i]);
        i += 1;
        assert(r@ =~= s@.subrange(a as int, i as int));
    }
    r
}

/// Sets `key` to `value` in the list: every entry under `key` takes the
/// value; where there is none, the entry is added at the end.
pub fn put(list: Vec<Attribute>, key: char, value: &Vec<char>) -> (r: Vec<Attribute>)
    ensures
        list_view(r@) == upsert(list_view(list@), key, value@),
{
    let ghost l = list_view(list@);
    let mut r: Vec<Attribute> = Vec::new();
    let mut found = false;
    let mut i: usize = 0;
    while i < list.len()
        invariant
            l == list_view(list@),
            i <= list@.len(),
            r@.len() == i,
            found == (exists|j: int| 0 <= j < i && (#[trigger] l[j]).0 == key),
            forall|j: int| 0 <= j < i ==> (#[trigger] r@[j])@ == (if l[j].0 == key {
                (key, value@)
            } else {
                l[j]
            }),
        decreases list@.len() - i,
    {
        assert(l[i as int] == list@[i as int]@);
        if list[i].key == key {
            found = true;
            r.push(Attribute { key, value: copy_chars(value) });
        } else {
            r.push(Attribute { key: list[i].key, value: copy_chars(&list[i].value) });
        }
        i += 1;
    }
    if !found {
        r.push(Attribute { key, value: copy_chars(value) });
    }
    assert(list_view(r@) =~= upsert(l, key, value@));
    r
}

/// The entries of the list that stay when `key` is deleted.
pub fn retain(list: &Vec<Attribute>, key: char, expected: &Option<Vec<char>>) -> (r: Vec<Attribute>)
    ensures
        list_view(r@) == retained(list_view(list@), key, option_view(*expected)),
{
    let ghost l = list_view(list@);
    let ghost ex = option_view(*expected);
    let mut r: Vec<Attribute> = Vec::new();
    let mut i: usize = 0;
    proof {
        assert(l.subrange(0, 0) =~= Seq::empty());
        assert(list_view(r@) =~= retained(l.subrange(0, 0), key, ex));
    }
    while i < list.len()
        invariant
            l == list_view(list@),
            ex == option_view(*expected),
            i <= list@.len(),
            list_view(r@) == retained(l.subrange(0, i as int), key, ex),
        decreases list@.len() - i,
    {
        let keep = list[i].key != key || match expected {
            Some(v) => same_chars(v, &list[i].value),
            None => false,
        };
        let ghost before = list_view(r@);
        if keep {
            r.push(Attribute { key: list[i].key, value: copy_chars(&list[i].value) });
        }
        i += 1;
        proof {
            let p = l.subrange(0, i as int);
            assert(p.drop_last() =~= l.subrange(0, i - 1));
            assert(p.last() == l[i - 1]);
            assert(keep == stays(l[i - 1], key, ex));
            if keep {
                assert(list_view(r@) =~= before.push(l[i - 1]));
            }
        }
    }
    assert(l.subrange(0, l.len() as int) =~= l);
    r
}

/// The characters of an optional text.
pub open spec fn option_view(o: Option<Vec<char>>) -> Option<Seq<char>> {
    match o {
        Some(v) => Some(v@),
        None => None,
    }
}

/// The attributes that the host string holds.
pub fn decode(s: &Vec<char>, d: char) -> (r: Vec<Attribute>)
    ensures
        list_view(r@) == attributes(s@, d),
{
    let n: usize = s.len();
    let mut r: Vec<Attribute> = Vec::new();
    let mut i: usize = 0;
    assert(list_view(r@) =~= Seq::empty());
    while i < n
        invariant
            n == s@.len(),
            i <= n,
            collect(s@, d, i as int, list_view(r@)) == attributes(s@, d),
        decreases n - i,
    {
        if token_starts(s, d, i) {
            let e = run_end(s, d, i + 2);
            let v = slice_chars(s, i + 2, e);
            proof {
                lemma_value_end(s@, d, i + 2);
            }
            r = put(r, s[i + 1], &v);
            i = e;
        } else {
            i += 1;
        }
    }
    r
}

/// The free text of the host string: what is left when every token is taken
/// out.
pub fn strip_tokens(s: &Vec<char>, d: char) -> (r: Vec<char>)
    ensures
        r@ == residual(s@, d),
{
    let n: usize = s.len();
    let mut r: Vec<char> = Vec::new();
    let mut i: usize = 0;
    while i < n
        invariant
            n == s@.len(),
            i <= n,
            strip(s@, d, i as int, r@) == residual(s@, d),
        decreases n - i,
    {
        if token_starts(s, d, i) {
            proof {
                lemma_value_end(s@, d, i + 2);
            }
            i = run_end(s, d, i + 2);
        } else {
            r.push(s[i]);
            i += 1;
        }
    }
    r
}

/// The value of the first token under `key`.
pub fn find_value(s: &Vec<char>, d: char, key: char) -> (r: Option<Vec<char>>)
    ensures
        option_view(r) == first_value(s@, d, 0, key),
{
    let n: usize = s.len();
    let mut i: usize = 0;
    while i < n
        invariant
            n == s@.len(),
            i <= n,
            first_value(s@, d, i as int, key) == first_value(s@, d, 0, key),
        decreases n - i,
    {
        if token_starts(s, d, i) {
            let e = run_end(s, d, i + 2);
            proof {
                lemma_value_end(s@, d, i + 2);
            }
            if s[i + 1] == key {
                return Some(slice_chars(s, i + 2, e));
            }
            i = e;
        } else {
            i += 1;
        }
    }
    None
}

/// Tells whether the delimiter directly followed by `key` stands in `s`.
pub fn contains_pair(s: &Vec<char>, d: char, key: char) -> (r: bool)
    ensures
        r == has_pair(s@, d, key),
{
    let n: usize = s.len();
    let mut i: usize = 0;
    while i < n && n - i >= 2
        invariant
            n == s@.len(),
            i <= n,
            forall|j: int| 0 <= j < i && j + 1 < n ==> !(#[trigger] s@[j] == d && s@[j + 1] == key),
        decreases n - i,
    {
        if s[i] == d && s[i + 1] == key {
            return true;
        }
        i += 1;
    }
    false
}

/// Appends the characters of `b` to `a`.
pub fn append_chars(a: &mut Vec<char>, b: &Vec<char>)
    ensures
        final(a)@ == old(a)@ + b@,
{
    let mut i: usize = 0;
    while i < b.len()
        invariant
            i <= b@.len(),
            a@ == old(a)@ + b@.subrange(0, i as int),
        decreases b@.len() - i,
    {
        a.push(b[i]);
        i += 1;
        assert(a@ =~= old(a)@ + b@.subrange(0, i as int));
    }
    assert(b@.subrange(0, b@.len() as int) =~= b@);
}

/// The tokens of the list, one after the other.
pub fn encode(list: &Vec<Attribute>, d: char) -> (r: Vec<char>)
    ensures
        r@ == encoded(list_view(list@), d),
{
    let ghost l = list_view(list@);
    let mut r: Vec<char> = Vec::new();
    let mut i: usize = 0;
    proof {
        assert(l.subrange(0, l.len() as int) =~= l);
    }
    while i < list.len()
        invariant
            l == list_view(list@),
            i <= list@.len(),
            r@ + encoded(l.subrange(i as int, l.len() as int), d) == encoded(l, d),
        decreases list@.len() - i,
    {
        let ghost before = r@;
        r.push(d);
        r.push(list[i].key);
        append_chars(&mut r, &list[i].value);
        proof {
            let t = l.subrange(i as int, l.len() as int);
            assert(t.drop_first() =~= l.subrange(i + 1, l.len() as int));
            assert(t[0] == l[i as int]);
            assert(r@ + encoded(t.drop_first(), d) =~= before + encoded(t, d));
        }
        i += 1;
    }
    assert(r@ + Seq::<char>::empty() =~= r@);
    r
}

/// The host string that holds the free text of `s` and the attributes of
/// the list: the trimmed free text, one blank, the tokens.
pub fn rewrite(s: &Vec<char>, d: char, list: &Vec<Attribute>) -> (r: Vec<char>)
    ensures
        r@ == rewritten(s@, d, list_view(list@)),
{
    let free = strip_tokens(s, d);
    let mut r = crate::text::trim(&free);
    r.push(' ');
    let tokens = encode(list, d);
    append_chars(&mut r, &tokens);
    r
}

} // verus!
