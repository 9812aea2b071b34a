//! Ordered, duplicate-free collections of citation keys.
//!
//! A key set is kept as a `Vec<String>` whose elements are strictly
//! increasing under the lexicographic code-point order `key_lt`.  Strict
//! sortedness makes the representation canonical: two sorted vectors holding
//! the same keys are equal element for element.

use vstd::prelude::*;

verus! {

/// Strict lexicographic order on character sequences, comparing characters
/// by Unicode code point.
pub open spec fn key_lt(a: Seq<char>, b: Seq<char>) -> bool
    decreases a.len(),
{
    if b.len() == 0 {
        false
    } else if a.len() == 0 {
        true
    } else if a[0] == b[0] {
        key_lt(a.drop_first(), b.drop_first())
    } else {
        (a[0] as u32) < (b[0] as u32)
    }
}

/// The views of `keys` are strictly increasing, so `keys` is sorted and
/// holds no duplicates.
pub open spec fn strictly_sorted_keys(keys: Seq<String>) -> bool {
    forall|i: int, j: int| 0 <= i < j < keys.len() ==> key_lt(#[trigger] keys[i]@, #[trigger] keys[j]@)
}

/// Some element of `keys` has view `x`.
pub open spec fn has_key(keys: Seq<String>, x: Seq<char>) -> bool {
    exists|i: int| 0 <= i < keys.len() && (#[trigger] keys[i]@) == x
}

pub proof fn lemma_key_lt_irreflexive(a: Seq<char>)
    ensures
        !key_lt(a, a),
    decreases a.len(),
{
    if a.len() > 0 {
        lemma_key_lt_irreflexive(a.drop_first());
    }
}

pub proof fn lemma_key_lt_transitive(a: Seq<char>, b: Seq<char>, c: Seq<char>)
    requires
        key_lt(a, b),
        key_lt(b, c),
    ensures
        key_lt(a, c),
    decreases a.len(),
{
    if a.len() > 0 && b.len() > 0 && c.len() > 0 {
        if a[0] == b[0] && b[0] == c[0] {
            lemma_key_lt_transitive(a.drop_first(), b.drop_first(), c.drop_first());
        }
    }
}

/// Keys that are ordered neither way are equal: `key_lt` is a total order.
pub proof fn lemma_key_lt_connected(a: Seq<char>, b: Seq<char>)
    requires
        !key_lt(a, b),
        !key_lt(b, a),
    ensures
        a == b,
    decreases a.len(),
{
    if a.len() == 0 {
        assert(a =~= b);
    } else if b.len() == 0 {
        assert(key_lt(b, a));
    } else {
        if a[0] != b[0] {
            assert((a[0] as u32) == (b[0] as u32));
            vstd::utf8::char_u32_cast(a[0], a[0] as u32);
            vstd::utf8::char_u32_cast(b[0], b[0] as u32);
            assert(false);
        }
        lemma_key_lt_connected(a.drop_first(), b.drop_first());
        assert(a.len() == b.len());
        assert forall|i: int| 0 <= i < a.len() implies a[i] == b[i] by {
            if i > 0 {
                assert(a.drop_first()[i - 1] == b.drop_first()[i - 1]);
            }
        }
        assert(a =~= b);
    }
}

/// Decides `key_lt(a@, b@)` by a linear scan over the characters.
pub fn key_lt_exec(a: &str, b: &str) -> (r: bool)
    ensures
        r == key_lt(a@, b@),
{
    let na = a.unicode_len();
    let nb = b.unicode_len();
    proof {
        assert(a@.skip(0) =~= a@);
        assert(b@.skip(0) =~= b@);
    }
    let mut i: usize = 0;
    while i < na && i < nb
        invariant
            na == a@.len(),
            nb == b@.len(),
            i <= na,
            i <= nb,
            forall|p: int| 0 <= p < i ==> a@[p] == b@[p],
            key_lt(a@, b@) == key_lt(a@.skip(i as int), b@.skip(i as int)),
        decreases na - i,
    {
        let ca = a.get_char(i);
        let cb = b.get_char(i);
        if ca != cb {
            proof {
                let sa = a@.skip(i as int);
                let sb = b@.skip(i as int);
                assert(sa[0] == ca && sb[0] == cb);
                assert(key_lt(sa, sb) == ((ca as u32) < (cb as u32)));
            }
            return (ca as u32) < (cb as u32);
        }
        proof {
            let sa = a@.skip(i as int);
            let sb = b@.skip(i as int);
            assert(sa[0] == sb[0]);
            assert(key_lt(sa, sb) == key_lt(sa.drop_first(), sb.drop_first()));
            assert(sa.drop_first() =~= a@.skip(i + 1));
            assert(sb.drop_first() =~= b@.skip(i + 1));
        }
        i += 1;
    }
    proof {
        let sa = a@.skip(i as int);
        let sb = b@.skip(i as int);
        if i == na {
            assert(sa.len() == 0);
        } else {
            assert(sb.len() == 0);
        }
        assert(key_lt(sa, sb) == (na < nb));
    }
    na < nb
}

/// Finds the place where `k` belongs in a strictly sorted key vector: the
/// first position whose key is not below `k`.
fn find_insert_pos(keys: &Vec<String>, k: &String) -> (i: usize)
    requires
        strictly_sorted_keys(keys@),
    ensures
        i <= keys@.len(),
        forall|j: int| 0 <= j < i ==> key_lt(#[trigger] keys@[j]@, k@),
        i < keys@.len() ==> !key_lt(keys@[i as int]@, k@),
{
    let n = keys.len();
    let mut i: usize = 0;
    while i < n
        invariant
            n == keys@.len(),
            i <= n,
            forall|j: int| 0 <= j < i ==> key_lt(#[trigger] keys@[j]@, k@),
        decreases n - i,
    {
        if !key_lt_exec(keys[i].as_str(), k.as_str()) {
            return i;
        }
        i += 1;
    }
    i
}

/// Inserts `k` into a strictly sorted key vector, keeping it strictly
/// sorted; a key already present is not duplicated.
pub fn insert_key(keys: &mut Vec<String>, k: String)
    requires
        strictly_sorted_keys(old(keys)@),
    ensures
        strictly_sorted_keys(final(keys)@),
        forall|x: Seq<char>| has_key(final(keys)@, x) <==> has_key(old(keys)@, x) || x == k@,
{
    let i = find_insert_pos(keys, &k);
    if i < keys.len() {
        let cur: &String = &keys[i];
        if *cur == k {
            proof {
                assert(keys@[i as int]@ == k@);
                assert(has_key(keys@, k@));
            }
            return;
        }
    }
    proof {
        if i < keys@.len() {
            assert(!key_lt(keys@[i as int]@, k@));
            assert(keys@[i as int]@ != k@);
            if !key_lt(k@, keys@[i as int]@) {
                lemma_key_lt_connected(k@, keys@[i as int]@);
                assert(false);
            }
        }
    }
    let ghost before = keys@;
    keys.insert(i, k);
    proof {
        let s = keys@;
        assert forall|j1: int, j2: int| 0 <= j1 < j2 < s.len() implies key_lt(
            #[trigger] s[j1]@,
            #[trigger] s[j2]@,
        ) by {
            let ii = i as int;
            if j2 < ii {
                assert(s[j1]@ == before[j1]@ && s[j2]@ == before[j2]@);
            } else if j1 < ii && j2 == ii {
                assert(s[j1]@ == before[j1]@ && s[j2]@ == k@);
            } else if j1 < ii && j2 > ii {
                assert(s[j1]@ == before[j1]@ && s[j2]@ == before[j2 - 1]@);
            } else if j1 == ii {
                assert(s[j1]@ == k@ && s[j2]@ == before[j2 - 1]@);
                assert(!key_lt(before[ii]@, k@) && before[ii]@ != k@);
                lemma_key_lt_connected_helper(k@, before[ii]@);
                if j2 - 1 > ii {
                    lemma_key_lt_transitive(k@, before[ii]@, before[j2 - 1]@);
                }
            } else {
                assert(s[j1]@ == before[j1 - 1]@ && s[j2]@ == before[j2 - 1]@);
            }
        }
        assert forall|x: Seq<char>| has_key(s, x) <==> has_key(before, x) || x == k@ by {
            if has_key(before, x) {
                let j = choose|j: int| 0 <= j < before.len() && (#[trigger] before[j]@) == x;
                if j < i as int {
                    assert(s[j]@ == x);
                } else {
                    assert(s[j + 1]@ == x);
                }
                assert(has_key(s, x));
            }
            if x == k@ {
                assert(s[i as int]@ == x);
                assert(has_key(s, x));
            }
            if has_key(s, x) {
                let j = choose|j: int| 0 <= j < s.len() && (#[trigger] s[j]@) == x;
                if j == i as int {
                    assert(x == k@);
                } else if j < i as int {
                    assert(before[j]@ == x);
                    assert(has_key(before, x));
                } else {
                    assert(before[j - 1]@ == x);
                    assert(has_key(before, x));
                }
            }
        }
    }
}

proof fn lemma_key_lt_connected_helper(a: Seq<char>, b: Seq<char>)
    requires
        !key_lt(b, a),
        a != b,
    ensures
        key_lt(a, b),
{
    if !key_lt(a, b) {
        lemma_key_lt_connected(a, b);
    }
}

/// A strictly sorted key vector holds no key twice, however often a key
/// was inserted.
pub proof fn lemma_sorted_no_duplicates(keys: Seq<String>)
    requires
        strictly_sorted_keys(keys),
    ensures
        forall|i: int, j: int|
            0 <= i < j < keys.len() ==> (#[trigger] keys[i]@) != (#[trigger] keys[j]@),
{
    assert forall|i: int, j: int|
        0 <= i < j < keys.len() implies (#[trigger] keys[i]@) != (#[trigger] keys[j]@) by {
        assert(key_lt(keys[i]@, keys[j]@));
        lemma_key_lt_irreflexive(keys[i]@);
    }
}

/// A strictly sorted key vector is determined by the set of keys it holds:
/// extraction is deterministic, and repeating it on the same text gives the
/// same key set back.
pub proof fn lemma_sorted_same_keys_equal(a: Seq<String>, b: Seq<String>)
    requires
        strictly_sorted_keys(a),
        strictly_sorted_keys(b),
        forall|x: Seq<char>| has_key(a, x) <==> has_key(b, x),
    ensures
        a.len() == b.len(),
        forall|i: int| 0 <= i < a.len() ==> (#[trigger] a[i]@) == b[i]@,
    decreases a.len(),
{
    if a.len() == 0 {
        if b.len() > 0 {
            assert(has_key(b, b[0]@));
            assert(has_key(a, b[0]@));
            assert(false);
        }
    } else {
        assert(has_key(a, a[0]@));
        assert(has_key(b, a[0]@));
        let jb = choose|j: int| 0 <= j < b.len() && (#[trigger] b[j]@) == a[0]@;
        assert(has_key(b, b[0]@));
        assert(has_key(a, b[0]@));
        let ja = choose|j: int| 0 <= j < a.len() && (#[trigger] a[j]@) == b[0]@;
        if jb > 0 {
            // b[0] comes before a[0] in the order, yet b[0] also sits in a
            // at position ja, which cannot be.
            assert(key_lt(b[0]@, a[0]@));
            if ja > 0 {
                assert(key_lt(a[0]@, a[ja]@));
                lemma_key_lt_transitive(a[0]@, a[ja]@, a[0]@);
                lemma_key_lt_irreflexive(a[0]@);
            } else {
                lemma_key_lt_irreflexive(a[0]@);
            }
            assert(false);
        }
        assert(a[0]@ == b[0]@);
        let at = a.drop_first();
        let bt = b.drop_first();
        assert forall|x: Seq<char>| has_key(at, x) <==> has_key(bt, x) by {
            if has_key(at, x) {
                lemma_tail_has_key(a, b, x);
            }
            if has_key(bt, x) {
                lemma_tail_has_key(b, a, x);
            }
        }
        lemma_sorted_tail(a);
        lemma_sorted_tail(b);
        lemma_sorted_same_keys_equal(at, bt);
        assert forall|i: int| 0 <= i < a.len() implies (#[trigger] a[i]@) == b[i]@ by {
            if i > 0 {
                assert(at[i - 1]@ == bt[i - 1]@);
            }
        }
    }
}

proof fn lemma_sorted_tail(a: Seq<String>)
    requires
        strictly_sorted_keys(a),
        a.len() > 0,
    ensures
        strictly_sorted_keys(a.drop_first()),
{
    let at = a.drop_first();
    assert forall|i: int, j: int| 0 <= i < j < at.len() implies key_lt(
        #[trigger] at[i]@,
        #[trigger] at[j]@,
    ) by {
        assert(at[i]@ == a[i + 1]@ && at[j]@ == a[j + 1]@);
    }
}

proof fn lemma_tail_has_key(a: Seq<String>, b: Seq<String>, x: Seq<char>)
    requires
        strictly_sorted_keys(a),
        strictly_sorted_keys(b),
        a.len() > 0,
        b.len() > 0,
        a[0]@ == b[0]@,
        forall|y: Seq<char>| has_key(a, y) <==> has_key(b, y),
        has_key(a.drop_first(), x),
    ensures
        has_key(b.drop_first(), x),
{
    let at = a.drop_first();
    let i = choose|i: int| 0 <= i < at.len() && (#[trigger] at[i]@) == x;
    assert(a[i + 1]@ == x);
    assert(has_key(a, x));
    assert(has_key(b, x));
    let j = choose|j: int| 0 <= j < b.len() && (#[trigger] b[j]@) == x;
    if j == 0 {
        // then x == b[0] == a[0], but a[0] precedes a[i + 1] == x strictly
        assert(key_lt(a[0]@, a[i + 1]@));
        lemma_key_lt_irreflexive(x);
        assert(false);
    }
    assert(b.drop_first()[j - 1]@ == x);
    assert(has_key(b.drop_first(), x));
}

} // verus!
