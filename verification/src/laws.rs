//! What holds of the operations of a document, whatever the host string.

use vstd::prelude::*;
use crate::classes::{is_space, key_char, value_char};
use crate::grammar::{
    attributes, collect, encoded, first_value, has_pair, residual, retained, rewritten, stays,
    strip, token_at, upsert, value_end, lemma_value_end,
};
use crate::text::{skip_back, skip_front, trimmed, lemma_skip_back_bounds, lemma_skip_front_bounds};
use crate::document::{deleted, fetched, inserted};

verus! {

/// An entry that can be written as a token and read back: its key is a key
/// character, its value is not empty and holds value characters only.
pub open spec fn entry_ok(e: (char, Seq<char>), d: char) -> bool {
    &&& key_char(e.0)
    &&& e.1.len() > 0
    &&& forall|j: int| 0 <= j < e.1.len() ==> value_char(#[trigger] e.1[j], d)
}

/// Every entry of the list can be written as a token and read back.
pub open spec fn well_formed(l: Seq<(char, Seq<char>)>, d: char) -> bool {
    forall|i: int| 0 <= i < l.len() ==> entry_ok(#[trigger] l[i], d)
}

/// No key has two entries.
pub open spec fn unique_keys(l: Seq<(char, Seq<char>)>) -> bool {
    forall|i: int, j: int| 0 <= i < j < l.len() ==> (#[trigger] l[i]).0 != (#[trigger] l[j]).0
}

/// No token starts anywhere in `t`.
pub open spec fn clean(t: Seq<char>, d: char) -> bool {
    forall|i: int| !token_at(t, d, i)
}

/// The value of the first entry under `key`.
pub open spec fn list_first(l: Seq<(char, Seq<char>)>, key: char) -> Option<Seq<char>>
    decreases l.len(),
{
    if l.len() == 0 {
        None
    } else if l[0].0 == key {
        Some(l[0].1)
    } else {
        list_first(l.drop_first(), key)
    }
}

/// The list `acc` after each entry of `l` is set in it, in order.
pub open spec fn upsert_all(acc: Seq<(char, Seq<char>)>, l: Seq<(char, Seq<char>)>) -> Seq<(char, Seq<char>)>
    decreases l.len(),
{
    if l.len() == 0 {
        acc
    } else {
        upsert_all(upsert(acc, l[0].0, l[0].1), l.drop_first())
    }
}

/// Setting a key keeps the list readable and its keys apart, and leaves
/// the value under the key, which then has an entry.
pub proof fn lemma_upsert_props(l: Seq<(char, Seq<char>)>, d: char, k: char, v: Seq<char>)
    ensures
        well_formed(l, d) && entry_ok((k, v), d) ==> well_formed(upsert(l, k, v), d),
        unique_keys(l) ==> unique_keys(upsert(l, k, v)),
        forall|i: int|
            0 <= i < upsert(l, k, v).len() && (#[trigger] upsert(l, k, v)[i]).0 == k ==> upsert(
                l,
                k,
                v,
            )[i].1 == v,
        exists|i: int| 0 <= i < upsert(l, k, v).len() && (#[trigger] upsert(l, k, v)[i]).0 == k,
{
    let u = upsert(l, k, v);
    if exists|i: int| 0 <= i < l.len() && (#[trigger] l[i]).0 == k {
        let w = choose|i: int| 0 <= i < l.len() && (#[trigger] l[i]).0 == k;
        assert(u[w].0 == k);
        assert forall|i: int, j: int| 0 <= i < j < u.len() && unique_keys(l) implies (#[trigger] u[i]).0
            != (#[trigger] u[j]).0 by {
            assert(u[i].0 == l[i].0);
            assert(u[j].0 == l[j].0);
        }
        assert forall|i: int| 0 <= i < u.len() && well_formed(l, d) && entry_ok((k, v), d) implies entry_ok(
            #[trigger] u[i],
            d,
        ) by {
            assert(entry_ok(l[i], d));
        }
    } else {
        assert(u[l.len() as int].0 == k);
        assert forall|i: int, j: int| 0 <= i < j < u.len() && unique_keys(l) implies (#[trigger] u[i]).0
            != (#[trigger] u[j]).0 by {
            assert(u[i] == l[i]);
            if j < l.len() {
                assert(u[j] == l[j]);
            }
        }
        assert forall|i: int| 0 <= i < u.len() && well_formed(l, d) && entry_ok((k, v), d) implies entry_ok(
            #[trigger] u[i],
            d,
        ) by {
            if i < l.len() {
                assert(u[i] == l[i]);
            }
        }
    }
}

/// The run of value characters from `j` ends at `e`.
pub proof fn lemma_value_end_exact(s: Seq<char>, d: char, j: int, e: int)
    requires
        0 <= j <= e <= s.len(),
        forall|x: int| j <= x < e ==> value_char(#[trigger] s[x], d),
        e == s.len() || !value_char(s[e], d),
    ensures
        value_end(s, d, j) == e,
    decreases e - j,
{
    if j < e {
        lemma_value_end_exact(s, d, j + 1, e);
    }
}

/// What a token at `i` holds.
pub proof fn lemma_token(s: Seq<char>, d: char, i: int)
    requires
        token_at(s, d, i),
    ensures
        i + 3 <= value_end(s, d, i + 2) <= s.len(),
        entry_ok((s[i + 1], s.subrange(i + 2, value_end(s, d, i + 2))), d),
        value_end(s, d, i + 2) < s.len() ==> !value_char(s[value_end(s, d, i + 2)], d),
{
    lemma_value_end(s, d, i + 2);
    lemma_value_end(s, d, i + 3);
    let e = value_end(s, d, i + 2);
    let v = s.subrange(i + 2, e);
    assert forall|j: int| 0 <= j < v.len() implies value_char(#[trigger] v[j], d) by {
        assert(v[j] == s[i + 2 + j]);
    }
}

/// The attributes decoded from a host string can be written as tokens, and
/// no key has two of them.
pub proof fn lemma_collect_props(s: Seq<char>, d: char, i: int, acc: Seq<(char, Seq<char>)>)
    requires
        well_formed(acc, d),
        unique_keys(acc),
    ensures
        well_formed(collect(s, d, i, acc), d),
        unique_keys(collect(s, d, i, acc)),
    decreases s.len() - i,
{
    if i < 0 || i >= s.len() {
    } else if token_at(s, d, i) {
        lemma_token(s, d, i);
        let e = value_end(s, d, i + 2);
        lemma_upsert_props(acc, d, s[i + 1], s.subrange(i + 2, e));
        lemma_collect_props(s, d, e, upsert(acc, s[i + 1], s.subrange(i + 2, e)));
    } else {
        lemma_collect_props(s, d, i + 1, acc);
    }
}

/// Taking the tokens out of a host string leaves text in which no token
/// starts, as long as the delimiter is no key character.
pub proof fn lemma_strip_clean(s: Seq<char>, d: char, i: int, acc: Seq<char>)
    requires
        !key_char(d),
        0 <= i <= s.len(),
        clean(acc, d),
        (acc.len() >= 2 && acc[acc.len() - 2] == d && key_char(acc[acc.len() - 1])) ==> (i
            >= s.len() || !value_char(s[i], d)),
        (acc.len() >= 1 && acc[acc.len() - 1] == d) ==> (i >= s.len() || !key_char(s[i]) || i + 1
            >= s.len() || !value_char(s[i + 1], d)),
    ensures
        clean(strip(s, d, i, acc), d),
    decreases s.len() - i,
{
    if i >= s.len() {
    } else if token_at(s, d, i) {
        lemma_token(s, d, i);
        lemma_strip_clean(s, d, value_end(s, d, i + 2), acc);
    } else {
        let next = acc.push(s[i]);
        assert forall|j: int| !token_at(next, d, j) by {
            if 0 <= j && j + 2 < next.len() {
                if j + 2 < acc.len() {
                    assert(!token_at(acc, d, j));
                    assert(next[j] == acc[j] && next[j + 1] == acc[j + 1] && next[j + 2] == acc[j
                        + 2]);
                } else {
                    assert(next[j] == acc[j] && next[j + 1] == acc[j + 1] && next[j + 2] == s[i]);
                }
            }
        }
        lemma_strip_clean(s, d, i + 1, next);
    }
}

/// Where the spaces in front end, no space stands.
pub proof fn lemma_skip_front_stop(t: Seq<char>, i: int)
    requires
        0 <= i <= t.len(),
    ensures
        skip_front(t, i) < t.len() ==> !is_space(t[skip_front(t, i)]),
    decreases t.len() - i,
{
    if i < t.len() && is_space(t[i]) {
        lemma_skip_front_stop(t, i + 1);
    }
}

/// Where the spaces at the end begin, no space stands before.
pub proof fn lemma_skip_back_stop(t: Seq<char>, j: int, lo: int)
    requires
        0 <= lo <= j <= t.len(),
    ensures
        skip_back(t, j, lo) > lo ==> !is_space(t[skip_back(t, j, lo) - 1]),
    decreases j,
{
    if lo < j && is_space(t[j - 1]) {
        lemma_skip_back_stop(t, j - 1, lo);
    }
}

/// Trimmed text neither starts nor ends with a space, and no token starts
/// in it where none starts in the text it was trimmed from.
pub proof fn lemma_trimmed(t: Seq<char>, d: char)
    ensures
        trimmed(t).len() > 0 ==> !is_space(trimmed(t)[0]) && !is_space(trimmed(t).last()),
        clean(t, d) ==> clean(trimmed(t), d),
{
    let a = skip_front(t, 0);
    lemma_skip_front_bounds(t, 0);
    lemma_skip_front_stop(t, 0);
    let b = skip_back(t, t.len() as int, a);
    lemma_skip_back_bounds(t, t.len() as int, a);
    lemma_skip_back_stop(t, t.len() as int, a);
    let r = t.subrange(a, b);
    if clean(t, d) {
        assert forall|i: int| !token_at(r, d, i) by {
            if 0 <= i && i + 2 < r.len() {
                assert(!token_at(t, d, a + i));
                assert(r[i] == t[a + i] && r[i + 1] == t[a + i + 1] && r[i + 2] == t[a + i + 2]);
            }
        }
    }
}

/// Trimmed text with one blank behind it trims back to itself.
pub proof fn lemma_trim_again(t: Seq<char>)
    requires
        t.len() > 0 ==> !is_space(t[0]) && !is_space(t.last()),
    ensures
        trimmed(t + seq![' ']) == t,
{
    let u = t + seq![' '];
    let n = t.len() as int;
    assert(u.len() == n + 1);
    assert(u[n] == ' ');
    if n == 0 {
        assert(skip_front(u, 1) == 1);
        assert(skip_front(u, 0) == 1);
        assert(skip_back(u, 1, 1) == 1);
        assert(trimmed(u) =~= t);
    } else {
        assert(u[0] == t[0]);
        assert(skip_front(u, 0) == 0);
        assert(u[n - 1] == t[n - 1]);
        assert(skip_back(u, n, 0) == n);
        assert(skip_back(u, n + 1, 0) == n);
        assert(trimmed(u) =~= t);
    }
}

/// Where no token starts from `i` up to `n`, a scan from `i` goes on from
/// `n` with the text between them taken as free text.
pub proof fn lemma_scan_free(
    h: Seq<char>,
    d: char,
    i: int,
    n: int,
    key: char,
    list: Seq<(char, Seq<char>)>,
    text: Seq<char>,
)
    requires
        0 <= i <= n <= h.len(),
        forall|j: int| i <= j < n ==> !token_at(h, d, j),
    ensures
        first_value(h, d, i, key) == first_value(h, d, n, key),
        collect(h, d, i, list) == collect(h, d, n, list),
        strip(h, d, i, text) == strip(h, d, n, text + h.subrange(i, n)),
    decreases n - i,
{
    if i < n {
        lemma_scan_free(h, d, i + 1, n, key, list, text.push(h[i]));
        assert(text.push(h[i]) + h.subrange(i + 1, n) =~= text + h.subrange(i, n));
    } else {
        assert(text + h.subrange(i, n) =~= text);
    }
}

/// A scan of the tokens of a list reads the list back: each entry is set in
/// turn, no free text is found, and the first value under a key is that of
/// the first entry under it.
pub proof fn lemma_scan_encoded(
    h: Seq<char>,
    d: char,
    p: int,
    l: Seq<(char, Seq<char>)>,
    key: char,
    list: Seq<(char, Seq<char>)>,
    text: Seq<char>,
)
    requires
        0 <= p <= h.len(),
        h.subrange(p, h.len() as int) == encoded(l, d),
        well_formed(l, d),
    ensures
        first_value(h, d, p, key) == list_first(l, key),
        collect(h, d, p, list) == upsert_all(list, l),
        strip(h, d, p, text) == text,
    decreases l.len(),
{
    let enc = encoded(l, d);
    if l.len() == 0 {
        assert(enc.len() == 0);
        assert(h.subrange(p, h.len() as int).len() == h.len() - p);
    } else {
        let k = l[0].0;
        let v = l[0].1;
        let rest = encoded(l.drop_first(), d);
        assert(entry_ok(l[0], d));
        assert(enc == seq![d, k] + v + rest);
        let e = p + 2 + v.len();
        assert(h.subrange(p, h.len() as int).len() == h.len() - p);
        assert(enc.len() == 2 + v.len() + rest.len());
        assert forall|x: int| 0 <= x < enc.len() implies h[p + x] == enc[x] by {
            assert(h.subrange(p, h.len() as int)[x] == h[p + x]);
        }
        assert(h[p] == enc[0] && enc[0] == d);
        assert(h[p + 1] == enc[1] && enc[1] == k);
        assert forall|x: int| p + 2 <= x < e implies value_char(#[trigger] h[x], d) by {
            assert(h[x] == enc[x - p]);
            assert(enc[x - p] == v[x - p - 2]);
        }
        assert(value_char(h[p + 2], d));
        assert(token_at(h, d, p));
        assert(h.subrange(e, h.len() as int) =~= rest) by {
            assert forall|x: int| 0 <= x < rest.len() implies h[e + x] == rest[x] by {
                assert(h[e + x] == enc[e + x - p]);
            }
        }
        assert forall|x: int| 0 <= x < l.drop_first().len() implies entry_ok(
            #[trigger] l.drop_first()[x],
            d,
        ) by {
            assert(l.drop_first()[x] == l[x + 1]);
        }
        if e < h.len() {
            assert(l.drop_first().len() > 0);
            assert(rest[0] == d);
            assert(h[e] == rest[0]);
        }
        lemma_value_end_exact(h, d, p + 2, e);
        assert(h.subrange(p + 2, e) =~= v) by {
            assert forall|x: int| 0 <= x < v.len() implies h[p + 2 + x] == v[x] by {
                assert(h[p + 2 + x] == enc[2 + x]);
            }
        }
        lemma_scan_encoded(h, d, e, l.drop_first(), key, upsert(list, k, v), text);
    }
}

/// Setting the entries of a list in turn, where no key comes twice, adds
/// them in order.
pub proof fn lemma_upsert_all(acc: Seq<(char, Seq<char>)>, l: Seq<(char, Seq<char>)>)
    requires
        unique_keys(acc + l),
    ensures
        upsert_all(acc, l) == acc + l,
    decreases l.len(),
{
    if l.len() == 0 {
        assert(acc + l =~= acc);
    } else {
        let all = acc + l;
        assert forall|i: int| 0 <= i < acc.len() implies (#[trigger] acc[i]).0 != l[0].0 by {
            assert(all[i] == acc[i]);
            assert(all[acc.len() as int] == l[0]);
        }
        let next = upsert(acc, l[0].0, l[0].1);
        assert(next == acc.push(l[0]));
        assert(next + l.drop_first() =~= all);
        lemma_upsert_all(next, l.drop_first());
    }
}

/// No token starts in the free text of a rewritten host string, up to
/// where its tokens begin.
pub proof fn lemma_rewritten_front(t: Seq<char>, d: char, l: Seq<(char, Seq<char>)>)
    requires
        clean(t, d),
    ensures
        forall|j: int| 0 <= j < t.len() + 1 ==> !token_at(t + seq![' '] + encoded(l, d), d, j),
{
    let h = t + seq![' '] + encoded(l, d);
    let n = t.len() as int;
    assert(h[n] == ' ');
    assert forall|j: int| 0 <= j < n + 1 implies !token_at(h, d, j) by {
        if j + 2 < h.len() {
            if j + 2 < n {
                assert(!token_at(t, d, j));
                assert(h[j] == t[j] && h[j + 1] == t[j + 1] && h[j + 2] == t[j + 2]);
            } else if j + 2 == n {
            } else if j + 1 == n {
            } else {
                assert(encoded(l, d).len() > 0);
                assert(l.len() > 0);
                assert(encoded(l, d)[0] == d);
                assert(h[n + 1] == encoded(l, d)[0]);
            }
        }
    }
}

/// A rewritten host string reads back as what was written: its attributes
/// are the list, and its free text is the trimmed free text and one blank.
pub proof fn lemma_rewritten(s: Seq<char>, d: char, l: Seq<(char, Seq<char>)>, key: char)
    requires
        clean(residual(s, d), d),
        well_formed(l, d),
    ensures
        first_value(rewritten(s, d, l), d, 0, key) == list_first(l, key),
        unique_keys(l) ==> attributes(rewritten(s, d, l), d) == l,
        residual(rewritten(s, d, l), d) == trimmed(residual(s, d)) + seq![' '],
        trimmed(residual(rewritten(s, d, l), d)) == trimmed(residual(s, d)),
{
    let t = trimmed(residual(s, d));
    let h = rewritten(s, d, l);
    let n = t.len() as int + 1;
    lemma_trimmed(residual(s, d), d);
    lemma_rewritten_front(t, d, l);
    lemma_scan_free(h, d, 0, n, key, Seq::empty(), Seq::empty());
    assert(h.subrange(n, h.len() as int) =~= encoded(l, d));
    assert(h.subrange(0, n) =~= t + seq![' ']);
    assert(Seq::<char>::empty() + h.subrange(0, n) =~= t + seq![' ']);
    lemma_scan_encoded(h, d, n, l, key, Seq::empty(), t + seq![' ']);
    if unique_keys(l) {
        assert(Seq::<(char, Seq<char>)>::empty() + l =~= l);
        lemma_upsert_all(Seq::empty(), l);
    }
    lemma_trim_again(t);
}

/// The first value under a key is that of some entry under it, and there
/// is none exactly where no entry is under the key.
pub proof fn lemma_list_first(l: Seq<(char, Seq<char>)>, key: char)
    ensures
        list_first(l, key) is None <==> (forall|i: int| 0 <= i < l.len() ==> (#[trigger] l[i]).0 != key),
        list_first(l, key) is Some ==> exists|i: int|
            0 <= i < l.len() && (#[trigger] l[i]).0 == key && l[i].1 == list_first(l, key)->0,
    decreases l.len(),
{
    if l.len() > 0 {
        let t = l.drop_first();
        lemma_list_first(t, key);
        if l[0].0 != key {
            if list_first(t, key) is Some {
                let w = choose|i: int|
                    0 <= i < t.len() && (#[trigger] t[i]).0 == key && t[i].1 == list_first(t, key)->0;
                assert(l[w + 1] == t[w]);
            } else {
                assert forall|i: int| 0 <= i < l.len() implies (#[trigger] l[i]).0 != key by {
                    if i > 0 {
                        assert(t[i - 1] == l[i]);
                    }
                }
            }
        } else {
            assert(l[0].0 == key);
        }
    }
}

/// What stays of a list when a key is deleted: entries of the list, each of
/// which stays, with no key twice where the list has none twice.
pub proof fn lemma_retained(l: Seq<(char, Seq<char>)>, d: char, k: char, expected: Option<Seq<char>>)
    ensures
        forall|i: int|
            0 <= i < retained(l, k, expected).len() ==> stays(
                #[trigger] retained(l, k, expected)[i],
                k,
                expected,
            ) && l.contains(retained(l, k, expected)[i]),
        well_formed(l, d) ==> well_formed(retained(l, k, expected), d),
        unique_keys(l) ==> unique_keys(retained(l, k, expected)),
        (forall|i: int| 0 <= i < l.len() ==> stays(#[trigger] l[i], k, expected)) ==> retained(
            l,
            k,
            expected,
        ) == l,
    decreases l.len(),
{
    let r = retained(l, k, expected);
    if l.len() > 0 {
        let front = l.drop_last();
        let rest = retained(front, k, expected);
        lemma_retained(front, d, k, expected);
        assert forall|i: int| 0 <= i < front.len() implies front[i] == l[i] by {}
        assert forall|i: int| 0 <= i < rest.len() implies l.contains(#[trigger] rest[i]) by {
            assert(front.contains(rest[i]));
            let w = choose|j: int| 0 <= j < front.len() && front[j] == rest[i];
            assert(l[w] == rest[i]);
        }
        assert(l[l.len() - 1] == l.last());
        assert forall|i: int| 0 <= i < r.len() implies stays(#[trigger] r[i], k, expected)
            && l.contains(r[i]) by {
            if i < rest.len() {
                assert(r[i] == rest[i]);
            }
        }
        if well_formed(l, d) {
            assert forall|i: int| 0 <= i < front.len() implies entry_ok(#[trigger] front[i], d) by {
                assert(front[i] == l[i]);
            }
            assert forall|i: int| 0 <= i < r.len() implies entry_ok(#[trigger] r[i], d) by {
                if i < rest.len() {
                    assert(r[i] == rest[i]);
                } else {
                    assert(r[i] == l[l.len() - 1]);
                }
            }
        }
        if unique_keys(l) {
            assert(unique_keys(front)) by {
                assert forall|i: int, j: int| 0 <= i < j < front.len() implies (#[trigger] front[i]).0
                    != (#[trigger] front[j]).0 by {
                    assert(front[i] == l[i] && front[j] == l[j]);
                }
            }
            assert forall|i: int, j: int| 0 <= i < j < r.len() implies (#[trigger] r[i]).0 != (
            #[trigger] r[j]).0 by {
                assert(r[i] == rest[i]);
                if j < rest.len() {
                    assert(r[j] == rest[j]);
                } else {
                    assert(r[j] == l[l.len() - 1]);
                    assert(front.contains(rest[i]));
                    let w = choose|x: int| 0 <= x < front.len() && front[x] == rest[i];
                    assert(l[w] == rest[i]);
                }
            }
        }
        if forall|i: int| 0 <= i < l.len() ==> stays(#[trigger] l[i], k, expected) {
            assert forall|i: int| 0 <= i < front.len() implies stays(#[trigger] front[i], k, expected) by {
                assert(front[i] == l[i]);
            }
            assert(rest == front);
            assert(r =~= l);
        }
    }
}

/// A key that the decoded attributes hold stands behind the delimiter
/// somewhere in the host string, unless it was in the list before.
pub proof fn lemma_collect_keys(s: Seq<char>, d: char, i: int, acc: Seq<(char, Seq<char>)>, k: char)
    requires
        0 <= i,
        exists|x: int| 0 <= x < collect(s, d, i, acc).len() && (#[trigger] collect(s, d, i, acc)[x]).0 == k,
    ensures
        has_pair(s, d, k) || exists|x: int| 0 <= x < acc.len() && (#[trigger] acc[x]).0 == k,
    decreases s.len() - i,
{
    let c = collect(s, d, i, acc);
    let x0 = choose|x: int| 0 <= x < c.len() && (#[trigger] c[x]).0 == k;
    if i >= s.len() {
        assert(acc[x0].0 == k);
    } else if token_at(s, d, i) {
        lemma_token(s, d, i);
        let e = value_end(s, d, i + 2);
        let v = s.subrange(i + 2, e);
        let next = upsert(acc, s[i + 1], v);
        assert(collect(s, d, e, next)[x0].0 == k);
        lemma_collect_keys(s, d, e, next, k);
        if !has_pair(s, d, k) {
            let x = choose|x: int| 0 <= x < next.len() && (#[trigger] next[x]).0 == k;
            if s[i + 1] == k {
                assert(s[i] == d && s[i + 1] == k);
                assert(has_pair(s, d, k));
            } else if x < acc.len() {
                assert(acc[x].0 == k);
            }
        }
    } else {
        assert(collect(s, d, i + 1, acc)[x0].0 == k);
        lemma_collect_keys(s, d, i + 1, acc, k);
    }
}

/// A key under which a token is found stands behind the delimiter in the
/// host string.
pub proof fn lemma_first_value_pair(s: Seq<char>, d: char, i: int, k: char)
    requires
        0 <= i,
        first_value(s, d, i, k) is Some,
    ensures
        has_pair(s, d, k),
    decreases s.len() - i,
{
    if i >= s.len() {
    } else if token_at(s, d, i) {
        lemma_token(s, d, i);
        if s[i + 1] == k {
            assert(s[i] == d && s[i + 1] == k);
        } else {
            lemma_first_value_pair(s, d, value_end(s, d, i + 2), k);
        }
    } else {
        lemma_first_value_pair(s, d, i + 1, k);
    }
}

/// With a delimiter that is no key character, no token starts in the free
/// text of a host string. An executable test of the delimiter
/// (`permitted_key`) thus tells a caller that the laws below hold of every
/// host string.
pub proof fn lemma_residual_clean(s: Seq<char>, d: char)
    requires
        !key_char(d),
    ensures
        clean(residual(s, d), d),
{
    lemma_strip_clean(s, d, 0, Seq::empty());
}

/// The attributes of any host string can be written as tokens, and no key
/// has two of them.
pub proof fn lemma_attributes(s: Seq<char>, d: char)
    ensures
        well_formed(attributes(s, d), d),
        unique_keys(attributes(s, d)),
{
    lemma_collect_props(s, d, 0, Seq::empty());
}

/// A key and a value that can be written as a token and read back: the key
/// is a key character, the value is not empty and holds neither the
/// delimiter nor a space.
pub open spec fn permitted(d: char, key: char, value: Seq<char>) -> bool {
    entry_ok((key, value), d)
}

/// Round trip. Where no token starts in the free text, a read of a key
/// after a permitted value was set under it gives that value.
pub proof fn law_insert_then_fetch(s: Seq<char>, d: char, key: char, value: Seq<char>)
    requires
        clean(residual(s, d), d),
        permitted(d, key, value),
    ensures
        fetched(inserted(s, d, key, value), d, key) == Some(value),
{
    let a = attributes(s, d);
    let l = upsert(a, key, value);
    let h = inserted(s, d, key, value);
    lemma_attributes(s, d);
    lemma_upsert_props(a, d, key, value);
    lemma_rewritten(s, d, l, key);
    lemma_list_first(l, key);
    lemma_first_value_pair(h, d, 0, key);
}

/// Where no token starts in the free text, the attributes read after a
/// permitted value was set are those read before with the key set to the
/// value.
pub proof fn law_insert_sets_the_attribute(s: Seq<char>, d: char, key: char, value: Seq<char>)
    requires
        clean(residual(s, d), d),
        permitted(d, key, value),
    ensures
        attributes(inserted(s, d, key, value), d) == upsert(attributes(s, d), key, value),
{
    let a = attributes(s, d);
    lemma_attributes(s, d);
    lemma_upsert_props(a, d, key, value);
    lemma_rewritten(s, d, upsert(a, key, value), key);
}

/// Idempotent delete. Where no token starts in the free text, a second
/// unconditional delete of a key leaves the host string as the first left it.
pub proof fn law_delete_twice(s: Seq<char>, d: char, key: char)
    requires
        clean(residual(s, d), d),
    ensures
        deleted(deleted(s, d, key, None), d, key, None) == deleted(s, d, key, None),
{
    let none: Option<Seq<char>> = None;
    if has_pair(s, d, key) {
        let a = attributes(s, d);
        let l = retained(a, key, none);
        let h = rewritten(s, d, l);
        lemma_attributes(s, d);
        lemma_retained(a, d, key, none);
        lemma_rewritten(s, d, l, key);
        lemma_retained(l, d, key, none);
    }
}

/// Conditional delete, first half. Where no token starts in the
/// free text and the key holds a value, a delete that expects another
/// value takes the attribute out.
pub proof fn law_delete_other_value_removes(
    s: Seq<char>,
    d: char,
    key: char,
    held: Seq<char>,
    other: Seq<char>,
)
    requires
        clean(residual(s, d), d),
        list_first(attributes(s, d), key) == Some(held),
        other != held,
    ensures
        list_first(attributes(deleted(s, d, key, Some(other)), d), key) is None,
        attributes(deleted(s, d, key, Some(other)), d) == retained(
            attributes(s, d),
            key,
            Some(other),
        ),
{
    let a = attributes(s, d);
    let l = retained(a, key, Some(other));
    lemma_attributes(s, d);
    lemma_list_first(a, key);
    lemma_collect_keys(s, d, 0, Seq::empty(), key);
    assert(has_pair(s, d, key));
    lemma_retained(a, d, key, Some(other));
    lemma_rewritten(s, d, l, key);
    assert forall|i: int| 0 <= i < l.len() implies (#[trigger] l[i]).0 != key by {
        if l[i].0 == key {
            assert(a.contains(l[i]));
            let x = choose|x: int| 0 <= x < a.len() && a[x] == l[i];
            let y = choose|y: int| 0 <= y < a.len() && (#[trigger] a[y]).0 == key && a[y].1 == held;
            assert(a[x].0 == a[y].0);
            assert(x == y);
        }
    }
    lemma_list_first(l, key);
}

/// Conditional delete, second half. Where no token starts in the
/// free text and the key holds a value, a delete that expects that
/// value leaves every attribute as it was.
pub proof fn law_delete_same_value_keeps(s: Seq<char>, d: char, key: char, held: Seq<char>)
    requires
        clean(residual(s, d), d),
        list_first(attributes(s, d), key) == Some(held),
    ensures
        attributes(deleted(s, d, key, Some(held)), d) == attributes(s, d),
{
    let a = attributes(s, d);
    lemma_attributes(s, d);
    lemma_list_first(a, key);
    let y = choose|y: int| 0 <= y < a.len() && (#[trigger] a[y]).0 == key && a[y].1 == held;
    assert forall|i: int| 0 <= i < a.len() implies stays(#[trigger] a[i], key, Some(held)) by {
        if a[i].0 == key {
            assert(a[i].0 == a[y].0);
            assert(i == y);
        }
    }
    lemma_retained(a, d, key, Some(held));
    lemma_rewritten(s, d, a, key);
}

/// Free text is kept. Where no token starts in the free text, the free
/// text of the host string after a permitted value was set is, once
/// trimmed, the trimmed free text from before.
pub proof fn law_insert_keeps_free_text(s: Seq<char>, d: char, key: char, value: Seq<char>)
    requires
        clean(residual(s, d), d),
        permitted(d, key, value),
    ensures
        trimmed(residual(inserted(s, d, key, value), d)) == trimmed(residual(s, d)),
{
    let a = attributes(s, d);
    lemma_attributes(s, d);
    lemma_upsert_props(a, d, key, value);
    lemma_rewritten(s, d, upsert(a, key, value), key);
}

/// Free text is kept. Where no token starts in the free text, the free
/// text of the host string after a delete is, once trimmed, the trimmed
/// free text from before.
pub proof fn law_delete_keeps_free_text(s: Seq<char>, d: char, key: char, expected: Option<Seq<char>>)
    requires
        clean(residual(s, d), d),
    ensures
        trimmed(residual(deleted(s, d, key, expected), d)) == trimmed(residual(s, d)),
{
    if has_pair(s, d, key) {
        let a = attributes(s, d);
        lemma_attributes(s, d);
        lemma_retained(a, d, key, expected);
        lemma_rewritten(s, d, retained(a, key, expected), key);
    }
}

/// What was written is what is read. Where no token starts in the
/// free text, the attributes read after a delete that found the key behind
/// the delimiter are those read before that stay.
pub proof fn law_delete_sets_the_attributes(
    s: Seq<char>,
    d: char,
    key: char,
    expected: Option<Seq<char>>,
)
    requires
        clean(residual(s, d), d),
        has_pair(s, d, key),
    ensures
        attributes(deleted(s, d, key, expected), d) == retained(attributes(s, d), key, expected),
{
    let a = attributes(s, d);
    lemma_attributes(s, d);
    lemma_retained(a, d, key, expected);
    lemma_rewritten(s, d, retained(a, key, expected), key);
}

/// Each attribute stands once. Where no token starts in the free text,
/// a host string that was written with a list of entries that can be read
/// back, no key twice, is the trimmed free text, one blank and one token
/// for each attribute that it holds: to write it again with its own
/// attributes changes nothing.
pub proof fn law_rewritten_is_stable(s: Seq<char>, d: char, l: Seq<(char, Seq<char>)>)
    requires
        clean(residual(s, d), d),
        well_formed(l, d),
        unique_keys(l),
    ensures
        rewritten(rewritten(s, d, l), d, attributes(rewritten(s, d, l), d)) == rewritten(s, d, l),
{
    lemma_rewritten(s, d, l, ' ');
}

/// A read finds a value only under a key that stands behind the delimiter
/// in the host string, so the search alone decides what a read gives.
pub proof fn law_fetch_is_the_first_token(s: Seq<char>, d: char, key: char)
    ensures
        fetched(s, d, key) == first_value(s, d, 0, key),
{
    if first_value(s, d, 0, key) is Some {
        lemma_first_value_pair(s, d, 0, key);
    }
}

} // verus!
