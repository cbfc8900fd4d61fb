//! Which names a listing shows and in which order: hidden names are left out,
//! the rest is sorted by lower-cased name, ties keeping their original order.

use vstd::prelude::*;
use crate::mode::{hidden, is_hidden};

verus! {

/// What `str::to_lowercase` returns for a string: the Unicode lower-case
/// mapping, which takes tables to state.
pub uninterp spec fn lowercase(s: Seq<char>) -> Seq<char>;

/// The lower-case form of a string, through `str::to_lowercase`.
/// Claims only that the result is a function of the input.
#[verifier::external_body]
pub(crate) fn to_lowercase(s: &str) -> (r: String)
    ensures
        r@ == lowercase(s@),
{
    s.to_lowercase()
}

/// Strict lexicographic order on character sequences, comparing characters by
/// code point; a proper prefix comes first.  This is the order of `String`'s
/// `cmp`, since UTF-8 keeps the order of code points.
pub open spec fn lex_lt(a: Seq<char>, b: Seq<char>) -> bool
    decreases a.len(),
{
    if a.len() == 0 {
        b.len() > 0
    } else if b.len() == 0 {
        false
    } else if a[0] != b[0] {
        (a[0] as int) < (b[0] as int)
    } else {
        lex_lt(a.drop_first(), b.drop_first())
    }
}

pub proof fn lemma_lex_irreflexive(a: Seq<char>)
    ensures
        !lex_lt(a, a),
    decreases a.len(),
{
    if a.len() > 0 {
        lemma_lex_irreflexive(a.drop_first());
    }
}

pub proof fn lemma_lex_transitive(a: Seq<char>, b: Seq<char>, c: Seq<char>)
    requires
        lex_lt(a, b),
        lex_lt(b, c),
    ensures
        lex_lt(a, c),
    decreases a.len(),
{
    if a.len() > 0 && b.len() > 0 && c.len() > 0 && a[0] == b[0] && b[0] == c[0] {
        lemma_lex_transitive(a.drop_first(), b.drop_first(), c.drop_first());
    }
}

pub proof fn lemma_lex_total(a: Seq<char>, b: Seq<char>)
    ensures
        lex_lt(a, b) || lex_lt(b, a) || a == b,
    decreases a.len(),
{
    if a.len() == 0 {
        if b.len() == 0 {
            assert(a =~= b);
        }
    } else if b.len() > 0 && a[0] == b[0] {
        lemma_lex_total(a.drop_first(), b.drop_first());
        if a.drop_first() == b.drop_first() {
            assert(a =~= seq![a[0]] + a.drop_first());
            assert(b =~= seq![b[0]] + b.drop_first());
        }
    } else if b.len() > 0 {
        let x = a[0];
        let y = b[0];
        assert((x as int) != (y as int));
    }
}

proof fn lemma_lex_step(a: Seq<char>, b: Seq<char>, i: int)
    requires
        0 <= i < a.len(),
        i < b.len(),
        a[i] == b[i],
    ensures
        lex_lt(a.skip(i), b.skip(i)) == lex_lt(a.skip(i + 1), b.skip(i + 1)),
{
    assert(a.skip(i).drop_first() =~= a.skip(i + 1));
    assert(b.skip(i).drop_first() =~= b.skip(i + 1));
}

/// Two strings are ordered by their first differing character, compared by
/// code point, whatever follows it.
pub proof fn lemma_lex_first_difference(p: Seq<char>, x: char, y: char, s: Seq<char>, t: Seq<char>)
    requires
        x != y,
    ensures
        lex_lt(p + seq![x] + s, p + seq![y] + t) == ((x as int) < (y as int)),
    decreases p.len(),
{
    let a = p + seq![x] + s;
    let b = p + seq![y] + t;
    if p.len() == 0 {
        assert(a[0] == x);
        assert(b[0] == y);
        assert((x as int) != (y as int));
    } else {
        assert(a[0] == p[0]);
        assert(b[0] == p[0]);
        assert(a.drop_first() =~= p.drop_first() + seq![x] + s);
        assert(b.drop_first() =~= p.drop_first() + seq![y] + t);
        lemma_lex_first_difference(p.drop_first(), x, y, s, t);
    }
}

/// A proper prefix comes before the longer string, never after it.
pub proof fn lemma_lex_prefix(p: Seq<char>, y: char, t: Seq<char>)
    ensures
        lex_lt(p, p + seq![y] + t),
        !lex_lt(p + seq![y] + t, p),
    decreases p.len(),
{
    let b = p + seq![y] + t;
    if p.len() > 0 {
        assert(b[0] == p[0]);
        assert(b.drop_first() =~= p.drop_first() + seq![y] + t);
        lemma_lex_prefix(p.drop_first(), y, t);
    }
}

/// The first-difference and prefix laws, read at positions of two given
/// strings.
pub proof fn lemma_lex_first_difference_at(a: Seq<char>, b: Seq<char>)
    ensures
        forall|i: int|
            0 <= i < a.len() && i < b.len() && a.take(i) == b.take(i) && a[i] != b[i]
                ==> lex_lt(a, b) == ((#[trigger] a[i] as int) < (b[i] as int)),
        a.len() < b.len() && b.take(a.len() as int) == a ==> lex_lt(a, b),
        b.len() <= a.len() && a.take(b.len() as int) == b ==> !lex_lt(a, b),
{
    assert forall|i: int|
        0 <= i < a.len() && i < b.len() && a.take(i) == b.take(i) && a[i] != b[i]
            implies lex_lt(a, b) == ((#[trigger] a[i] as int) < (b[i] as int)) by {
        assert(a =~= a.take(i) + seq![a[i]] + a.skip(i + 1));
        assert(b =~= a.take(i) + seq![b[i]] + b.skip(i + 1));
        lemma_lex_first_difference(a.take(i), a[i], b[i], a.skip(i + 1), b.skip(i + 1));
    }
    if a.len() < b.len() && b.take(a.len() as int) == a {
        assert(b =~= a + seq![b[a.len() as int]] + b.skip(a.len() as int + 1));
        lemma_lex_prefix(a, b[a.len() as int], b.skip(a.len() as int + 1));
    }
    if b.len() <= a.len() && a.take(b.len() as int) == b {
        if b.len() == a.len() {
            assert(a =~= b);
            lemma_lex_irreflexive(a);
        } else {
            assert(a =~= b + seq![a[b.len() as int]] + a.skip(b.len() as int + 1));
            lemma_lex_prefix(b, a[b.len() as int], a.skip(b.len() as int + 1));
        }
    }
}

/// Compares two strings in the order of `lex_lt`.
pub fn lex_less(a: &str, b: &str) -> (r: bool)
    ensures
        r == lex_lt(a@, b@),
        forall|i: int|
            0 <= i < a@.len() && i < b@.len() && a@.take(i) == b@.take(i) && a@[i] != b@[i]
                ==> r == ((#[trigger] a@[i] as int) < (b@[i] as int)),
        a@.len() < b@.len() && b@.take(a@.len() as int) == a@ ==> r,
        b@.len() <= a@.len() && a@.take(b@.len() as int) == b@ ==> !r,
{
    proof {
        lemma_lex_first_difference_at(a@, b@);
    }
    let la = a.unicode_len();
    let lb = b.unicode_len();
    let mut i: usize = 0;
    assert(a@.skip(0) =~= a@);
    assert(b@.skip(0) =~= b@);
    while i < la && i < lb
        invariant
            la == a@.len(),
            lb == b@.len(),
            i <= la,
            i <= lb,
            lex_lt(a@, b@) == lex_lt(a@.skip(i as int), b@.skip(i as int)),
        decreases la - i,
    {
        let ca = a.get_char(i);
        let cb = b.get_char(i);
        if ca != cb {
            assert(a@.skip(i as int)[0] == ca);
            assert(b@.skip(i as int)[0] == cb);
            proof {
                lemma_lex_first_difference_at(a@, b@);
            }
            return (ca as u32) < (cb as u32);
        }
        proof {
            lemma_lex_step(a@, b@, i as int);
        }
        i = i + 1;
    }
    i == la && i < lb
}

/// `x` comes before `y` when its key is smaller, or when the keys are equal
/// and `x` was first: the order of a stable sort by key.
pub open spec fn before(keys: Seq<Seq<char>>, x: int, y: int) -> bool {
    lex_lt(keys[x], keys[y]) || (keys[x] == keys[y] && x < y)
}

/// Inserts `i` into `s` in front of the first element whose key is greater
/// than the key of `i`.
pub open spec fn insert_in_order(s: Seq<int>, i: int, keys: Seq<Seq<char>>) -> Seq<int>
    decreases s.len(),
{
    if s.len() == 0 {
        seq![i]
    } else if lex_lt(keys[i], keys[s[0]]) {
        seq![i] + s
    } else {
        seq![s[0]] + insert_in_order(s.drop_first(), i, keys)
    }
}

/// The order of the first `n` names by the given keys: the positions of the
/// names that are not hidden, inserted one after the other by key.
pub open spec fn order_upto(names: Seq<Seq<char>>, keys: Seq<Seq<char>>, n: nat) -> Seq<int>
    decreases n,
{
    if n == 0 {
        Seq::empty()
    } else {
        let prev = order_upto(names, keys, (n - 1) as nat);
        if hidden(names[n - 1]) {
            prev
        } else {
            insert_in_order(prev, n - 1, keys)
        }
    }
}

/// The positions of the names that are not hidden, in the order of a stable
/// sort by the keys (`keys[i]` is the key of `names[i]`).
pub open spec fn keyed_order(names: Seq<Seq<char>>, keys: Seq<Seq<char>>) -> Seq<int> {
    order_upto(names, keys, names.len())
}

/// The lower-cased names, the keys of the listing order.
pub open spec fn lower_keys(names: Seq<Seq<char>>) -> Seq<Seq<char>> {
    names.map_values(|s: Seq<char>| lowercase(s))
}

/// The order in which a directory's names are listed, as positions in
/// `names`: sorted by lower-cased name.
pub open spec fn listing_order(names: Seq<Seq<char>>) -> Seq<int> {
    keyed_order(names, lower_keys(names))
}

/// The names that are listed, in the order they are listed.
pub open spec fn listed_names(names: Seq<Seq<char>>) -> Seq<Seq<char>> {
    listing_order(names).map_values(|i: int| names[i])
}

proof fn lemma_insert_at(s: Seq<int>, i: int, keys: Seq<Seq<char>>, pos: int)
    requires
        0 <= pos <= s.len(),
        forall|j: int| 0 <= j < pos ==> !lex_lt(keys[i], #[trigger] keys[s[j]]),
        pos < s.len() ==> lex_lt(keys[i], keys[s[pos]]),
    ensures
        insert_in_order(s, i, keys) == s.insert(pos, i),
    decreases pos,
{
    if pos == 0 {
        assert(s.insert(0, i) =~= seq![i] + s);
    } else {
        let t = s.drop_first();
        assert forall|j: int| 0 <= j < pos - 1 implies !lex_lt(keys[i], #[trigger] keys[t[j]]) by {
            assert(t[j] == s[j + 1]);
        }
        lemma_insert_at(t, i, keys, pos - 1);
        assert(s.insert(pos, i) =~= seq![s[0]] + t.insert(pos - 1, i));
    }
}

/// Every pair of positions in `s` is in the `before` order.
pub open spec fn sorted_by(keys: Seq<Seq<char>>, s: Seq<int>) -> bool {
    forall|a: int, b: int| 0 <= a < b < s.len() ==> before(keys, #[trigger] s[a], #[trigger] s[b])
}

proof fn lemma_insert_contents(s: Seq<int>, i: int, keys: Seq<Seq<char>>)
    ensures
        insert_in_order(s, i, keys).len() == s.len() + 1,
        forall|x: int| #[trigger] insert_in_order(s, i, keys).contains(x) <==> (s.contains(x) || x == i),
    decreases s.len(),
{
    let r = insert_in_order(s, i, keys);
    if s.len() == 0 {
        assert forall|x: int| #[trigger] r.contains(x) <==> (s.contains(x) || x == i) by {
            if x == i {
                assert(r[0] == i);
            }
        }
    } else if lex_lt(keys[i], keys[s[0]]) {
        assert forall|x: int| #[trigger] r.contains(x) <==> (s.contains(x) || x == i) by {
            if x == i {
                assert(r[0] == i);
            }
            if s.contains(x) {
                let k = choose|k: int| 0 <= k < s.len() && s[k] == x;
                assert(r[k + 1] == x);
            }
            if r.contains(x) && x != i {
                let k = choose|k: int| 0 <= k < r.len() && r[k] == x;
                assert(s[k - 1] == x);
            }
        }
    } else {
        let t = s.drop_first();
        let rt = insert_in_order(t, i, keys);
        lemma_insert_contents(t, i, keys);
        assert(r == seq![s[0]] + rt);
        assert forall|x: int| #[trigger] r.contains(x) <==> (s.contains(x) || x == i) by {
            if x == s[0] {
                assert(r[0] == x);
                assert(s[0] == x);
            } else {
                if r.contains(x) {
                    let k = choose|k: int| 0 <= k < r.len() && r[k] == x;
                    assert(rt[k - 1] == x);
                    assert(rt.contains(x));
                    if t.contains(x) {
                        let m = choose|m: int| 0 <= m < t.len() && t[m] == x;
                        assert(s[m + 1] == x);
                    }
                }
                if s.contains(x) {
                    let k = choose|k: int| 0 <= k < s.len() && s[k] == x;
                    assert(t[k - 1] == x);
                    assert(t.contains(x));
                    assert(rt.contains(x));
                    let m = choose|m: int| 0 <= m < rt.len() && rt[m] == x;
                    assert(r[m + 1] == x);
                }
                if x == i {
                    assert(rt.contains(x));
                    let m = choose|m: int| 0 <= m < rt.len() && rt[m] == x;
                    assert(r[m + 1] == x);
                }
            }
        }
    }
}

proof fn lemma_before_key_le(keys: Seq<Seq<char>>, i: int, x: int, y: int)
    requires
        lex_lt(keys[i], keys[x]),
        before(keys, x, y),
    ensures
        lex_lt(keys[i], keys[y]),
{
    if lex_lt(keys[x], keys[y]) {
        lemma_lex_transitive(keys[i], keys[x], keys[y]);
    }
}

proof fn lemma_insert_sorted(s: Seq<int>, i: int, keys: Seq<Seq<char>>)
    requires
        sorted_by(keys, s),
        forall|k: int| 0 <= k < s.len() ==> #[trigger] s[k] < i,
    ensures
        sorted_by(keys, insert_in_order(s, i, keys)),
    decreases s.len(),
{
    let r = insert_in_order(s, i, keys);
    if s.len() == 0 {
    } else if lex_lt(keys[i], keys[s[0]]) {
        assert forall|a: int, b: int| 0 <= a < b < r.len() implies before(keys, #[trigger] r[a], #[trigger] r[b]) by {
            if a == 0 {
                if b > 1 {
                    assert(before(keys, s[0], s[b - 1]));
                    lemma_before_key_le(keys, i, s[0], s[b - 1]);
                }
            } else {
                assert(before(keys, s[a - 1], s[b - 1]));
            }
        }
    } else {
        let t = s.drop_first();
        let rt = insert_in_order(t, i, keys);
        assert(sorted_by(keys, t)) by {
            assert forall|a: int, b: int| 0 <= a < b < t.len() implies before(keys, #[trigger] t[a], #[trigger] t[b]) by {
                assert(before(keys, s[a + 1], s[b + 1]));
            }
        }
        lemma_insert_sorted(t, i, keys);
        lemma_insert_contents(t, i, keys);
        assert(r == seq![s[0]] + rt);
        lemma_lex_total(keys[i], keys[s[0]]);
        assert(before(keys, s[0], i));
        assert forall|a: int, b: int| 0 <= a < b < r.len() implies before(keys, #[trigger] r[a], #[trigger] r[b]) by {
            if a == 0 {
                let x = rt[b - 1];
                assert(rt.contains(x));
                if x != i {
                    assert(t.contains(x));
                    let m = choose|m: int| 0 <= m < t.len() && t[m] == x;
                    assert(before(keys, s[0], s[m + 1]));
                }
            } else {
                assert(before(keys, rt[a - 1], rt[b - 1]));
            }
        }
    }
}

proof fn lemma_order_upto(names: Seq<Seq<char>>, keys: Seq<Seq<char>>, n: nat)
    requires
        n <= names.len(),
    ensures
        forall|k: int| 0 <= k < order_upto(names, keys, n).len() ==>
            0 <= #[trigger] order_upto(names, keys, n)[k] < n && !hidden(names[order_upto(names, keys, n)[k]]),
        forall|j: int| 0 <= j < n && !hidden(names[j]) ==> #[trigger] order_upto(names, keys, n).contains(j),
        sorted_by(keys, order_upto(names, keys, n)),
    decreases n,
{
    if n > 0 {
        let prev = order_upto(names, keys, (n - 1) as nat);
        lemma_order_upto(names, keys, (n - 1) as nat);
        if !hidden(names[n - 1]) {
            assert(order_upto(names, keys, n) == insert_in_order(prev, n - 1, keys));
            lemma_insert_contents(prev, n - 1, keys);
            lemma_insert_sorted(prev, n - 1, keys);
            let o = order_upto(names, keys, n);
            assert forall|k: int| 0 <= k < o.len() implies 0 <= #[trigger] o[k] < n && !hidden(names[o[k]]) by {
                assert(o.contains(o[k]));
                if o[k] != n - 1 {
                    let m = choose|m: int| 0 <= m < prev.len() && prev[m] == o[k];
                    assert(0 <= prev[m] < n - 1);
                }
            }
            assert forall|j: int| 0 <= j < n && !hidden(names[j]) implies #[trigger] o.contains(j) by {
                if j < n - 1 {
                    assert(prev.contains(j));
                }
            }
        }
    }
}

/// The keyed order lists exactly the names that are not hidden, each once,
/// sorted by key with ties in their original order.
pub proof fn lemma_keyed_order(names: Seq<Seq<char>>, keys: Seq<Seq<char>>)
    ensures
        forall|k: int| 0 <= k < keyed_order(names, keys).len() ==>
            0 <= #[trigger] keyed_order(names, keys)[k] < names.len()
            && !hidden(names[keyed_order(names, keys)[k]]),
        forall|j: int| 0 <= j < names.len() && !hidden(names[j])
            ==> #[trigger] keyed_order(names, keys).contains(j),
        keyed_order(names, keys).no_duplicates(),
        forall|a: int, b: int| 0 <= a < b < keyed_order(names, keys).len() ==>
            before(keys, #[trigger] keyed_order(names, keys)[a], #[trigger] keyed_order(names, keys)[b]),
{
    lemma_order_upto(names, keys, names.len());
    let o = keyed_order(names, keys);
    assert forall|a: int, b: int| 0 <= a < o.len() && 0 <= b < o.len() && a != b implies o[a] != o[b] by {
        if a < b {
            assert(before(keys, o[a], o[b]));
        } else {
            assert(before(keys, o[b], o[a]));
        }
        lemma_lex_irreflexive(keys[o[a]]);
    }
}

/// The listing order lists exactly the names that are not hidden, each once,
/// sorted by lower-cased name with ties in their original order.
pub proof fn lemma_listing_order(names: Seq<Seq<char>>)
    ensures
        forall|k: int| 0 <= k < listing_order(names).len() ==>
            0 <= #[trigger] listing_order(names)[k] < names.len()
            && !hidden(names[listing_order(names)[k]]),
        forall|j: int| 0 <= j < names.len() && !hidden(names[j])
            ==> #[trigger] listing_order(names).contains(j),
        listing_order(names).no_duplicates(),
        forall|a: int, b: int| 0 <= a < b < listing_order(names).len() ==>
            before(lower_keys(names), #[trigger] listing_order(names)[a], #[trigger] listing_order(names)[b]),
{
    lemma_keyed_order(names, lower_keys(names));
}

/// What `list_names` returns holds no hidden name, every name that is not
/// hidden, and is ordered by lower-cased name: each name's lower-case form
/// is at most the next one's.
pub proof fn lemma_listed_names(names: Seq<Seq<char>>)
    ensures
        forall|k: int| 0 <= k < listed_names(names).len() ==> !hidden(#[trigger] listed_names(names)[k]),
        forall|j: int| 0 <= j < names.len() && !hidden(names[j]) ==> #[trigger] listed_names(names).contains(names[j]),
        forall|a: int, b: int| 0 <= a < b < listed_names(names).len() ==>
            !lex_lt(lowercase(#[trigger] listed_names(names)[b]), lowercase(#[trigger] listed_names(names)[a])),
{
    lemma_listing_order(names);
    let o = listing_order(names);
    let l = listed_names(names);
    let keys = lower_keys(names);
    assert forall|k: int| 0 <= k < l.len() implies !hidden(#[trigger] l[k]) by {
        assert(l[k] == names[o[k]]);
    }
    assert forall|j: int| 0 <= j < names.len() && !hidden(names[j]) implies #[trigger] l.contains(names[j]) by {
        assert(o.contains(j));
        let m = choose|m: int| 0 <= m < o.len() && o[m] == j;
        assert(l[m] == names[j]);
    }
    assert forall|a: int, b: int| 0 <= a < b < l.len() implies
        !lex_lt(lowercase(#[trigger] l[b]), lowercase(#[trigger] l[a])) by {
        assert(before(keys, o[a], o[b]));
        assert(keys[o[a]] == lowercase(l[a]));
        assert(keys[o[b]] == lowercase(l[b]));
        if lex_lt(keys[o[a]], keys[o[b]]) {
            if lex_lt(keys[o[b]], keys[o[a]]) {
                lemma_lex_transitive(keys[o[a]], keys[o[b]], keys[o[a]]);
                lemma_lex_irreflexive(keys[o[a]]);
            }
        } else {
            lemma_lex_irreflexive(keys[o[a]]);
        }
    }
}

fn lowercase_all(names: &Vec<String>) -> (keys: Vec<String>)
    ensures
        keys@.len() == names@.len(),
        forall|k: int| 0 <= k < names@.len() ==> #[trigger] keys@[k]@ == lowercase(names@[k]@),
{
    let mut keys: Vec<String> = Vec::new();
    let mut k: usize = 0;
    while k < names.len()
        invariant
            k <= names@.len(),
            keys@.len() == k,
            forall|j: int| 0 <= j < k ==> #[trigger] keys@[j]@ == lowercase(names@[j]@),
        decreases names@.len() - k,
    {
        let low = to_lowercase(names[k].as_str());
        keys.push(low);
        k = k + 1;
    }
    keys
}

/// The view of a list of strings as character sequences.
pub open spec fn views(v: Seq<String>) -> Seq<Seq<char>> {
    v.map_values(|s: String| s@)
}

/// The positions of the names that are not hidden, sorted by the given keys
/// (`keys[i]` is the key of `names[i]`), equal keys in their original order.
pub fn keyed_positions(names: &Vec<String>, keys: &Vec<String>) -> (order: Vec<usize>)
    requires
        keys@.len() == names@.len(),
    ensures
        order@.map_values(|j: usize| j as int) == keyed_order(views(names@), views(keys@)),
        forall|k: int| 0 <= k < order@.len() ==> #[trigger] order@[k] < names@.len(),
{
    let ghost nv = views(names@);
    let ghost keys_spec = views(keys@);
    let mut order: Vec<usize> = Vec::new();
    let mut i: usize = 0;
    while i < names.len()
        invariant
            i <= names@.len(),
            nv == views(names@),
            keys_spec == views(keys@),
            keys@.len() == names@.len(),
            order@.map_values(|j: usize| j as int) == order_upto(nv, keys_spec, i as nat),
            forall|k: int| 0 <= k < order@.len() ==> #[trigger] order@[k] < i,
        decreases names@.len() - i,
    {
        let ghost prev = order@.map_values(|j: usize| j as int);
        assert(nv[i as int] == names@[i as int]@);
        if !is_hidden(names[i].as_str()) {
            let mut pos: usize = 0;
            let mut found = false;
            while pos < order.len() && !found
                invariant
                    pos <= order@.len(),
                    prev == order@.map_values(|j: usize| j as int),
                    i < names@.len(),
                    keys@.len() == names@.len(),
                    keys_spec == views(keys@),
                    forall|k: int| 0 <= k < order@.len() ==> #[trigger] order@[k] < i,
                    forall|j: int| 0 <= j < pos ==> !lex_lt(keys_spec[i as int], #[trigger] keys_spec[prev[j]]),
                    found ==> pos < order@.len() && lex_lt(keys_spec[i as int], keys_spec[prev[pos as int]]),
                decreases order@.len() - pos, if found { 0int } else { 1int },
            {
                let o = order[pos];
                assert(keys_spec[o as int] == keys@[o as int]@);
                assert(keys_spec[i as int] == keys@[i as int]@);
                if lex_less(keys[i].as_str(), keys[o].as_str()) {
                    found = true;
                } else {
                    pos = pos + 1;
                }
            }
            proof {
                lemma_insert_at(prev, i as int, keys_spec, pos as int);
            }
            order.insert(pos, i);
            assert(order@.map_values(|j: usize| j as int) =~= prev.insert(pos as int, i as int));
        }
        i = i + 1;
    }
    assert(nv.len() == names@.len());
    order
}

/// The positions of the names to list, in listing order: hidden names are
/// skipped, the others sorted by lower-cased name, equal keys in their
/// original order.
pub fn listing_positions(names: &Vec<String>) -> (order: Vec<usize>)
    ensures
        order@.map_values(|j: usize| j as int) == listing_order(views(names@)),
        forall|k: int| 0 <= k < order@.len() ==> #[trigger] order@[k] < names@.len(),
{
    let keys = lowercase_all(names);
    assert(views(keys@) =~= lower_keys(views(names@)));
    keyed_positions(names, &keys)
}

/// The names to show for a directory: the names that do not start with `'.'`,
/// sorted by their lower-case form, names with equal lower-case forms in the
/// order they were given.
pub fn list_names(names: Vec<String>) -> (listed: Vec<String>)
    ensures
        views(listed@) == listed_names(views(names@)),
{
    let order = listing_positions(&names);
    let ghost ord = listing_order(views(names@));
    let mut listed: Vec<String> = Vec::new();
    let mut k: usize = 0;
    while k < order.len()
        invariant
            k <= order@.len(),
            order@.map_values(|j: usize| j as int) == ord,
            ord == listing_order(views(names@)),
            listed@.len() == k,
            forall|m: int| 0 <= m < order@.len() ==> #[trigger] order@[m] < names@.len(),
            forall|m: int| 0 <= m < k ==> #[trigger] listed@[m]@ == names@[ord[m]]@,
        decreases order@.len() - k,
    {
        assert(ord[k as int] == order@[k as int] as int);
        let name = names[order[k]].clone();
        listed.push(name);
        k = k + 1;
    }
    assert(views(listed@) =~= listed_names(views(names@)));
    listed
}

} // verus!
