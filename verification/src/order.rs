use vstd::prelude::*;

use crate::types::L2Account;

verus! {

/// Lexicographic order on byte strings, as `Ord` orders `[u8; N]`: the first
/// differing byte decides, and a proper prefix comes first.
pub open spec fn key_lt(a: Seq<u8>, b: Seq<u8>) -> bool
    decreases a.len(),
{
    if a.len() == 0 {
        b.len() > 0
    } else if b.len() == 0 {
        false
    } else if a[0] != b[0] {
        a[0] < b[0]
    } else {
        key_lt(a.drop_first(), b.drop_first())
    }
}

/// The order is decided by the first byte at which two keys differ, and
/// those bytes compare as unsigned numbers.
pub proof fn lemma_key_lt_first_difference(a: Seq<u8>, b: Seq<u8>, i: int)
    requires
        0 <= i < a.len(),
        i < b.len(),
        a.take(i) == b.take(i),
        a[i] != b[i],
    ensures
        key_lt(a, b) == ((a[i] as int) < (b[i] as int)),
    decreases i,
{
    if i > 0 {
        assert(a[0] == a.take(i)[0]);
        assert(b[0] == b.take(i)[0]);
        assert(a.drop_first().take(i - 1) =~= b.drop_first().take(i - 1)) by {
            assert forall|k: int| 0 <= k < i - 1 implies a.drop_first()[k] == b.drop_first()[k] by {
                assert(a.take(i)[k + 1] == a[k + 1]);
                assert(b.take(i)[k + 1] == b[k + 1]);
                assert(a.drop_first()[k] == a[k + 1]);
                assert(b.drop_first()[k] == b[k + 1]);
            }
        }
        lemma_key_lt_first_difference(a.drop_first(), b.drop_first(), i - 1);
    }
}

/// No key is less than itself.
pub proof fn lemma_key_lt_irreflexive(a: Seq<u8>)
    ensures
        !key_lt(a, a),
    decreases a.len(),
{
    if a.len() > 0 {
        lemma_key_lt_irreflexive(a.drop_first());
    }
}

/// The key order is transitive.
pub proof fn lemma_key_lt_transitive(a: Seq<u8>, b: Seq<u8>, c: Seq<u8>)
    requires
        key_lt(a, b),
        key_lt(b, c),
    ensures
        key_lt(a, c),
    decreases a.len(),
{
    if a.len() > 0 && b.len() > 0 && c.len() > 0 && a[0] == b[0] && b[0] == c[0] {
        lemma_key_lt_transitive(a.drop_first(), b.drop_first(), c.drop_first());
    }
}

/// Any two distinct keys are ordered one way or the other.
pub proof fn lemma_key_lt_total(a: Seq<u8>, b: Seq<u8>)
    ensures
        a == b || key_lt(a, b) || key_lt(b, a),
    decreases a.len(),
{
    if a.len() == 0 {
        if b.len() == 0 {
            assert(a =~= b);
        }
    } else if b.len() > 0 && a[0] == b[0] {
        lemma_key_lt_total(a.drop_first(), b.drop_first());
        if a.drop_first() == b.drop_first() {
            assert(a.drop_first().len() == b.drop_first().len());
            assert(a.len() == b.len());
            assert forall|i: int| 0 <= i < a.len() implies a[i] == b[i] by {
                if i > 0 {
                    assert(a[i] == a.drop_first()[i - 1]);
                    assert(b[i] == b.drop_first()[i - 1]);
                }
            }
            assert(a =~= b);
        }
    }
}

/// Two keys are never each less than the other.
pub proof fn lemma_key_lt_asymmetric(a: Seq<u8>, b: Seq<u8>)
    requires
        key_lt(a, b),
    ensures
        !key_lt(b, a),
{
    if key_lt(b, a) {
        lemma_key_lt_transitive(a, b, a);
        lemma_key_lt_irreflexive(a);
    }
}

/// "Not less than" is transitive: `a <= b` and `b <= c` give `a <= c`.
pub proof fn lemma_key_le_transitive(a: Seq<u8>, b: Seq<u8>, c: Seq<u8>)
    requires
        !key_lt(b, a),
        !key_lt(c, b),
    ensures
        !key_lt(c, a),
{
    lemma_key_lt_total(a, b);
    lemma_key_lt_total(b, c);
    if key_lt(c, a) {
        if key_lt(a, b) {
            lemma_key_lt_transitive(c, a, b);
        }
    }
}

/// Compares two public keys lexicographically.
pub fn pubkey_lt(a: &[u8; 32], b: &[u8; 32]) -> (lt: bool)
    ensures
        lt == key_lt(a@, b@),
        a@ == b@ ==> !lt,
        forall|i: int|
            0 <= i < 32 && a@.take(i) == b@.take(i) && a@[i] != b@[i] ==> (lt <==> #[trigger] a@[i]
                < b@[i]),
{
    proof {
        lemma_key_lt_irreflexive(a@);
        assert forall|i: int|
            0 <= i < 32 && a@.take(i) == b@.take(i) && a@[i] != b@[i] implies (key_lt(a@, b@)
                <==> #[trigger] a@[i] < b@[i]) by {
            lemma_key_lt_first_difference(a@, b@, i);
        }
    }
    let mut i: usize = 0;
    assert(a@.skip(0) =~= a@);
    assert(b@.skip(0) =~= b@);
    while i < 32
        invariant
            0 <= i <= 32,
            a@.len() == 32,
            b@.len() == 32,
            key_lt(a@, b@) == key_lt(a@.skip(i as int), b@.skip(i as int)),
            a@ == b@ ==> !key_lt(a@, b@),
            forall|j: int|
                0 <= j < 32 && a@.take(j) == b@.take(j) && a@[j] != b@[j] ==> (key_lt(a@, b@)
                    <==> #[trigger] a@[j] < b@[j]),
        decreases 32 - i,
    {
        let x = a[i];
        let y = b[i];
        assert(a@.skip(i as int)[0] == x);
        assert(b@.skip(i as int)[0] == y);
        if x != y {
            return x < y;
        }
        assert(a@.skip(i as int).drop_first() =~= a@.skip(i + 1));
        assert(b@.skip(i as int).drop_first() =~= b@.skip(i + 1));
        i = i + 1;
    }
    assert(a@.skip(32).len() == 0);
    false
}

/// `s` lists its accounts in nondecreasing order of public key.
pub open spec fn pubkey_sorted(s: Seq<L2Account>) -> bool {
    forall|i: int, j: int|
        0 <= i < j < s.len() ==> !key_lt(#[trigger] s[j].pubkey@, #[trigger] s[i].pubkey@)
}

/// Holds of the accounts whose public key is `key`.
pub open spec fn has_pubkey(key: Seq<u8>) -> spec_fn(L2Account) -> bool {
    |a: L2Account| a.pubkey@ == key
}

/// The accounts of `s` whose public key is `key`, in their order in `s`.
pub open spec fn with_pubkey(s: Seq<L2Account>, key: Seq<u8>) -> Seq<L2Account> {
    s.filter(has_pubkey(key))
}

/// `output` is `input` stably sorted by public key: sorted, and for every key
/// the accounts that carry it appear in the same order as in `input`.
pub open spec fn is_pubkey_sort_of(input: Seq<L2Account>, output: Seq<L2Account>) -> bool {
    &&& pubkey_sorted(output)
    &&& forall|key: Seq<u8>| #[trigger] with_pubkey(output, key) == with_pubkey(input, key)
}

/// The stable sort of `input` by public key.
pub open spec fn sort_by_pubkey(input: Seq<L2Account>) -> Seq<L2Account> {
    choose|output: Seq<L2Account>| is_pubkey_sort_of(input, output)
}

/// Where a stable insertion puts `x` into `s`: after every account whose key
/// is not greater than the key of `x`, scanning from the end.
pub open spec fn insertion_point(s: Seq<L2Account>, x: L2Account) -> int
    decreases s.len(),
{
    if s.len() == 0 {
        0
    } else if key_lt(x.pubkey@, s.last().pubkey@) {
        insertion_point(s.drop_last(), x)
    } else {
        s.len() as int
    }
}

proof fn lemma_insertion_point(s: Seq<L2Account>, x: L2Account)
    requires
        pubkey_sorted(s),
    ensures
        0 <= insertion_point(s, x) <= s.len(),
        forall|q: int| 0 <= q < insertion_point(s, x) ==> !key_lt(x.pubkey@, #[trigger] s[q].pubkey@),
        forall|q: int| insertion_point(s, x) <= q < s.len() ==> key_lt(x.pubkey@, #[trigger] s[q].pubkey@),
    decreases s.len(),
{
    if s.len() > 0 {
        let last = s.last();
        if key_lt(x.pubkey@, last.pubkey@) {
            let r = s.drop_last();
            assert(pubkey_sorted(r)) by {
                assert forall|i: int, j: int| 0 <= i < j < r.len() implies !key_lt(
                    #[trigger] r[j].pubkey@,
                    #[trigger] r[i].pubkey@,
                ) by {
                    assert(r[i] == s[i] && r[j] == s[j]);
                }
            }
            lemma_insertion_point(r, x);
            assert forall|q: int| 0 <= q < insertion_point(s, x) implies !key_lt(
                x.pubkey@,
                #[trigger] s[q].pubkey@,
            ) by {
                assert(s[q] == r[q]);
            }
            assert forall|q: int| insertion_point(s, x) <= q < s.len() implies key_lt(
                x.pubkey@,
                #[trigger] s[q].pubkey@,
            ) by {
                if q < r.len() {
                    assert(s[q] == r[q]);
                }
            }
        } else {
            assert forall|q: int| 0 <= q < s.len() implies !key_lt(
                x.pubkey@,
                #[trigger] s[q].pubkey@,
            ) by {
                if q < s.len() - 1 {
                    assert(!key_lt(s[s.len() - 1].pubkey@, s[q].pubkey@));
                    lemma_key_le_transitive(s[q].pubkey@, last.pubkey@, x.pubkey@);
                }
            }
        }
    }
}

/// A sequence in which no account carries `key` has none to select.
proof fn lemma_with_pubkey_none(s: Seq<L2Account>, key: Seq<u8>)
    requires
        forall|q: int| 0 <= q < s.len() ==> (#[trigger] s[q]).pubkey@ != key,
    ensures
        with_pubkey(s, key).len() == 0,
{
    let f = with_pubkey(s, key);
    if f.len() > 0 {
        s.lemma_filter_pred(has_pubkey(key), 0);
        assert(f.contains(f[0]));
        s.lemma_filter_contains_rev(has_pubkey(key), f[0]);
        let q = choose|q: int| 0 <= q < s.len() && s[q] == f[0];
        assert(s[q].pubkey@ == key);
    }
}

/// Inserting the next account at its insertion point extends a stable sort
/// of a prefix to a stable sort of the longer prefix.
proof fn lemma_insert_sorted(input: Seq<L2Account>, s: Seq<L2Account>, x: L2Account, p: int)
    requires
        is_pubkey_sort_of(input, s),
        0 <= p <= s.len(),
        forall|q: int| 0 <= q < p ==> !key_lt(x.pubkey@, #[trigger] s[q].pubkey@),
        forall|q: int| p <= q < s.len() ==> key_lt(x.pubkey@, #[trigger] s[q].pubkey@),
    ensures
        is_pubkey_sort_of(input.push(x), s.insert(p, x)),
{
    let t = s.insert(p, x);
    assert(t.len() == s.len() + 1);
    assert forall|i: int, j: int| 0 <= i < j < t.len() implies !key_lt(
        #[trigger] t[j].pubkey@,
        #[trigger] t[i].pubkey@,
    ) by {
        if j < p {
            assert(t[i] == s[i] && t[j] == s[j]);
        } else if j == p {
            assert(t[i] == s[i] && t[j] == x);
        } else if i == p {
            assert(t[i] == x && t[j] == s[j - 1]);
            lemma_key_lt_asymmetric(x.pubkey@, s[j - 1].pubkey@);
        } else if i < p {
            assert(t[i] == s[i] && t[j] == s[j - 1]);
        } else {
            assert(t[i] == s[i - 1] && t[j] == s[j - 1]);
        }
    }
    let head = s.take(p);
    let tail = s.skip(p);
    assert(t =~= head.push(x) + tail);
    assert(s =~= head + tail);
    assert forall|key: Seq<u8>| #[trigger] with_pubkey(t, key) == with_pubkey(input.push(x), key) by {
        let pred = has_pubkey(key);
        Seq::filter_distributes_over_add(head.push(x), tail, pred);
        Seq::filter_distributes_over_add(head, tail, pred);
        head.lemma_filter_push(x, pred);
        input.lemma_filter_push(x, pred);
        assert(with_pubkey(s, key) == with_pubkey(input, key));
        if x.pubkey@ == key {
            assert forall|q: int| 0 <= q < tail.len() implies (#[trigger] tail[q]).pubkey@ != key by {
                assert(tail[q] == s[p + q]);
                lemma_key_lt_irreflexive(x.pubkey@);
            }
            lemma_with_pubkey_none(tail, key);
            assert(tail.filter(pred) =~= Seq::<L2Account>::empty());
            assert(with_pubkey(t, key) =~= with_pubkey(input.push(x), key));
        } else {
            assert(with_pubkey(t, key) =~= with_pubkey(input.push(x), key));
        }
    }
}

/// Every sequence of accounts has a stable sort by public key.
proof fn lemma_pubkey_sort_exists(input: Seq<L2Account>)
    ensures
        exists|output: Seq<L2Account>| is_pubkey_sort_of(input, output),
    decreases input.len(),
{
    if input.len() == 0 {
        let t = Seq::<L2Account>::empty();
        assert forall|key: Seq<u8>| #[trigger] with_pubkey(t, key) == with_pubkey(input, key) by {
            assert(t =~= input);
        }
        assert(is_pubkey_sort_of(input, t));
    } else {
        let init = input.drop_last();
        let x = input.last();
        lemma_pubkey_sort_exists(init);
        let t = choose|output: Seq<L2Account>| is_pubkey_sort_of(init, output);
        lemma_insertion_point(t, x);
        lemma_insert_sorted(init, t, x, insertion_point(t, x));
        assert(init.push(x) =~= input);
        assert(is_pubkey_sort_of(input, t.insert(insertion_point(t, x), x)));
    }
}

/// The first account of a nonempty sequence heads its selection by that
/// account's own key, and the rest of that selection is drawn from the tail.
proof fn lemma_with_pubkey_first(t: Seq<L2Account>, key: Seq<u8>)
    requires
        t.len() > 0,
    ensures
        with_pubkey(t, key) == (if t[0].pubkey@ == key {
            seq![t[0]]
        } else {
            Seq::empty()
        }) + with_pubkey(t.drop_first(), key),
{
    assert(t =~= seq![t[0]] + t.drop_first());
    t.drop_first().lemma_filter_prepend(t[0], has_pubkey(key));
}

/// Two sequences that are both sorted by public key and agree, key by key,
/// on the accounts they hold in order, are the same sequence.
proof fn lemma_pubkey_sorted_unique(t1: Seq<L2Account>, t2: Seq<L2Account>)
    requires
        pubkey_sorted(t1),
        pubkey_sorted(t2),
        forall|key: Seq<u8>| #[trigger] with_pubkey(t1, key) == with_pubkey(t2, key),
    ensures
        t1 == t2,
    decreases t1.len(),
{
    if t1.len() == 0 || t2.len() == 0 {
        if t1.len() > 0 {
            lemma_with_pubkey_first(t1, t1[0].pubkey@);
            t2.lemma_filter_len(has_pubkey(t1[0].pubkey@));
            assert(with_pubkey(t1, t1[0].pubkey@) == with_pubkey(t2, t1[0].pubkey@));
        } else if t2.len() > 0 {
            lemma_with_pubkey_first(t2, t2[0].pubkey@);
            t1.lemma_filter_len(has_pubkey(t2[0].pubkey@));
            assert(with_pubkey(t1, t2[0].pubkey@) == with_pubkey(t2, t2[0].pubkey@));
        } else {
            assert(t1 =~= t2);
        }
    } else {
        let a = t1[0];
        let b = t2[0];
        let ka = a.pubkey@;
        let kb = b.pubkey@;
        // `a` occurs in `t2`, so its key is not below `t2`'s first key.
        lemma_with_pubkey_first(t1, ka);
        assert(with_pubkey(t1, ka) == with_pubkey(t2, ka));
        assert(with_pubkey(t2, ka)[0] == a);
        assert(with_pubkey(t2, ka).contains(a));
        t2.lemma_filter_contains_rev(has_pubkey(ka), a);
        let j = choose|j: int| 0 <= j < t2.len() && t2[j] == a;
        if j > 0 {
            assert(!key_lt(t2[j].pubkey@, t2[0].pubkey@));
        } else {
            lemma_key_lt_irreflexive(ka);
        }
        // Symmetrically for `b` in `t1`.
        lemma_with_pubkey_first(t2, kb);
        assert(with_pubkey(t1, kb) == with_pubkey(t2, kb));
        assert(with_pubkey(t1, kb)[0] == b);
        assert(with_pubkey(t1, kb).contains(b));
        t1.lemma_filter_contains_rev(has_pubkey(kb), b);
        let i = choose|i: int| 0 <= i < t1.len() && t1[i] == b;
        if i > 0 {
            assert(!key_lt(t1[i].pubkey@, t1[0].pubkey@));
        } else {
            lemma_key_lt_irreflexive(kb);
        }
        lemma_key_lt_total(ka, kb);
        assert(ka == kb);
        lemma_with_pubkey_first(t2, ka);
        assert(a == b);
        let r1 = t1.drop_first();
        let r2 = t2.drop_first();
        assert forall|key: Seq<u8>| #[trigger] with_pubkey(r1, key) == with_pubkey(r2, key) by {
            lemma_with_pubkey_first(t1, key);
            lemma_with_pubkey_first(t2, key);
            assert(with_pubkey(t1, key) == with_pubkey(t2, key));
            if ka == key {
                assert(with_pubkey(r1, key) =~= with_pubkey(t1, key).drop_first());
                assert(with_pubkey(r2, key) =~= with_pubkey(t2, key).drop_first());
            }
        }
        assert(pubkey_sorted(r1)) by {
            assert forall|i: int, j: int| 0 <= i < j < r1.len() implies !key_lt(
                #[trigger] r1[j].pubkey@,
                #[trigger] r1[i].pubkey@,
            ) by {
                assert(r1[i] == t1[i + 1] && r1[j] == t1[j + 1]);
            }
        }
        assert(pubkey_sorted(r2)) by {
            assert forall|i: int, j: int| 0 <= i < j < r2.len() implies !key_lt(
                #[trigger] r2[j].pubkey@,
                #[trigger] r2[i].pubkey@,
            ) by {
                assert(r2[i] == t2[i + 1] && r2[j] == t2[j + 1]);
            }
        }
        lemma_pubkey_sorted_unique(r1, r2);
        assert(t1 =~= seq![a] + r1);
        assert(t2 =~= seq![b] + r2);
    }
}

/// `sort_by_pubkey(input)` is a stable sort of `input` by public key, and the
/// only one.
pub proof fn lemma_sort_by_pubkey(input: Seq<L2Account>, output: Seq<L2Account>)
    ensures
        is_pubkey_sort_of(input, sort_by_pubkey(input)),
        is_pubkey_sort_of(input, output) ==> output == sort_by_pubkey(input),
{
    lemma_pubkey_sort_exists(input);
    if is_pubkey_sort_of(input, output) {
        let t = sort_by_pubkey(input);
        assert forall|key: Seq<u8>| #[trigger] with_pubkey(output, key) == with_pubkey(t, key) by {
            assert(with_pubkey(output, key) == with_pubkey(input, key));
            assert(with_pubkey(t, key) == with_pubkey(input, key));
        }
        lemma_pubkey_sorted_unique(output, t);
    }
}

/// In the sort of any list of accounts, an earlier account's public key is
/// never after a later one's: at the first byte where they differ, the
/// earlier key holds the smaller unsigned byte.
pub proof fn lemma_sorted_keys_ascend(input: Seq<L2Account>, i: int, j: int, p: int)
    requires
        0 <= i < j < sort_by_pubkey(input).len(),
        0 <= p < 32,
        sort_by_pubkey(input)[i].pubkey@.take(p) == sort_by_pubkey(input)[j].pubkey@.take(p),
        sort_by_pubkey(input)[i].pubkey@[p] != sort_by_pubkey(input)[j].pubkey@[p],
    ensures
        sort_by_pubkey(input)[i].pubkey@[p] < sort_by_pubkey(input)[j].pubkey@[p],
{
    let t = sort_by_pubkey(input);
    lemma_sort_by_pubkey(input, t);
    let a = t[i].pubkey@;
    let b = t[j].pubkey@;
    assert(!key_lt(b, a));
    lemma_key_lt_first_difference(b, a, p);
}

/// Reordering the accounts changes nothing in their sort by public key, as
/// long as the accounts that share a key keep their relative order (in
/// particular, whenever no two accounts share a key).
pub proof fn lemma_sort_by_pubkey_ignores_order(a1: Seq<L2Account>, a2: Seq<L2Account>)
    requires
        forall|key: Seq<u8>| #[trigger] with_pubkey(a1, key) == with_pubkey(a2, key),
    ensures
        sort_by_pubkey(a1) == sort_by_pubkey(a2),
{
    let t1 = sort_by_pubkey(a1);
    lemma_sort_by_pubkey(a1, t1);
    assert forall|key: Seq<u8>| #[trigger] with_pubkey(t1, key) == with_pubkey(a2, key) by {
        assert(with_pubkey(t1, key) == with_pubkey(a1, key));
        assert(with_pubkey(a1, key) == with_pubkey(a2, key));
    }
    lemma_sort_by_pubkey(a2, t1);
}

/// No two accounts of `s` share a public key.
pub open spec fn distinct_pubkeys(s: Seq<L2Account>) -> bool {
    forall|i: int, j: int|
        0 <= i < j < s.len() ==> (#[trigger] s[i]).pubkey@ != (#[trigger] s[j]).pubkey@
}

/// With distinct keys, selecting a key present at `i` selects exactly `s[i]`.
proof fn lemma_with_pubkey_distinct(s: Seq<L2Account>, i: int)
    requires
        distinct_pubkeys(s),
        0 <= i < s.len(),
    ensures
        with_pubkey(s, s[i].pubkey@) == seq![s[i]],
    decreases s.len(),
{
    let key = s[i].pubkey@;
    let init = s.drop_last();
    let last = s.last();
    assert(init.push(last) =~= s);
    init.lemma_filter_push(last, has_pubkey(key));
    if i == s.len() - 1 {
        assert forall|q: int| 0 <= q < init.len() implies (#[trigger] init[q]).pubkey@ != key by {
            assert(init[q] == s[q]);
        }
        lemma_with_pubkey_none(init, key);
        assert(with_pubkey(s, key) =~= seq![s[i]]);
    } else {
        assert(distinct_pubkeys(init)) by {
            assert forall|a: int, b: int| 0 <= a < b < init.len() implies (#[trigger] init[a]).pubkey@
                != (#[trigger] init[b]).pubkey@ by {
                assert(init[a] == s[a] && init[b] == s[b]);
            }
        }
        assert(init[i] == s[i]);
        lemma_with_pubkey_distinct(init, i);
        assert(last.pubkey@ != key);
    }
}

/// Two lists that hold the same accounts, each with distinct public keys,
/// agree key by key on the accounts they hold.
pub proof fn lemma_permutation_same_selections(a1: Seq<L2Account>, a2: Seq<L2Account>)
    requires
        a1.to_multiset() == a2.to_multiset(),
        distinct_pubkeys(a1),
        distinct_pubkeys(a2),
    ensures
        forall|key: Seq<u8>| #[trigger] with_pubkey(a1, key) == with_pubkey(a2, key),
{
    assert forall|key: Seq<u8>| #[trigger] with_pubkey(a1, key) == with_pubkey(a2, key) by {
        if exists|i: int| 0 <= i < a1.len() && a1[i].pubkey@ == key {
            let i = choose|i: int| 0 <= i < a1.len() && a1[i].pubkey@ == key;
            let x = a1[i];
            vstd::seq_lib::to_multiset_contains(a1, x);
            vstd::seq_lib::to_multiset_contains(a2, x);
            assert(a1.contains(x));
            let j = choose|j: int| 0 <= j < a2.len() && a2[j] == x;
            lemma_with_pubkey_distinct(a1, i);
            lemma_with_pubkey_distinct(a2, j);
        } else if exists|j: int| 0 <= j < a2.len() && a2[j].pubkey@ == key {
            let j = choose|j: int| 0 <= j < a2.len() && a2[j].pubkey@ == key;
            let x = a2[j];
            vstd::seq_lib::to_multiset_contains(a1, x);
            vstd::seq_lib::to_multiset_contains(a2, x);
            assert(a2.contains(x));
            let i = choose|i: int| 0 <= i < a1.len() && a1[i] == x;
            assert(a1[i].pubkey@ == key);
        } else {
            lemma_with_pubkey_none(a1, key);
            lemma_with_pubkey_none(a2, key);
            assert(with_pubkey(a1, key) =~= with_pubkey(a2, key));
        }
    }
}

/// Returns the accounts of `accounts` stably sorted by public key.
pub fn sort_accounts_by_pubkey(accounts: &[L2Account]) -> (sorted: Vec<L2Account>)
    ensures
        is_pubkey_sort_of(accounts@, sorted@),
        sorted@ == sort_by_pubkey(accounts@),
{
    let mut sorted: Vec<L2Account> = Vec::new();
    let n = accounts.len();
    assert(accounts@.take(0) =~= Seq::<L2Account>::empty());
    assert forall|key: Seq<u8>| #[trigger] with_pubkey(sorted@, key) == with_pubkey(
        accounts@.take(0),
        key,
    ) by {
        reveal(Seq::filter);
    }
    let mut k: usize = 0;
    while k < n
        invariant
            n == accounts@.len(),
            0 <= k <= n,
            is_pubkey_sort_of(accounts@.take(k as int), sorted@),
        decreases n - k,
    {
        let a = &accounts[k];
        let x = L2Account { pubkey: a.pubkey, lamports: a.lamports, nonce: a.nonce };
        assert(x == accounts@[k as int]);
        let mut p = sorted.len();
        while p > 0 && pubkey_lt(&x.pubkey, &sorted[p - 1].pubkey)
            invariant
                0 <= p <= sorted@.len(),
                forall|q: int|
                    p <= q < sorted@.len() ==> key_lt(x.pubkey@, #[trigger] sorted@[q].pubkey@),
            decreases p,
        {
            p = p - 1;
        }
        proof {
            if p > 0 {
                assert forall|q: int| 0 <= q < p implies !key_lt(
                    x.pubkey@,
                    #[trigger] sorted@[q].pubkey@,
                ) by {
                    if q < p - 1 {
                        lemma_key_le_transitive(sorted@[q].pubkey@, sorted@[p - 1].pubkey@, x.pubkey@);
                    }
                }
            }
            lemma_insert_sorted(accounts@.take(k as int), sorted@, x, p as int);
            assert(accounts@.take(k as int).push(x) =~= accounts@.take(k + 1));
        }
        sorted.insert(p, x);
        k = k + 1;
    }
    assert(accounts@.take(n as int) =~= accounts@);
    proof {
        lemma_sort_by_pubkey(accounts@, sorted@);
    }
    sorted
}

} // verus!
