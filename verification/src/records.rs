//! Records: the key lists of objects in a value, and which of them occur
//! often enough to be worth a record definition.
use crate::value::{
    compare_keys, key_lt, lemma_key_order, lemma_view_array, lemma_view_object, view_entries,
    view_values, SpecValue, Value,
};
use vstd::prelude::*;

verus! {

/// The keys of object pairs, in order.
pub open spec fn keys_of(m: Seq<(Seq<char>, SpecValue)>) -> Seq<Seq<char>> {
    Seq::new(m.len(), |i: int| m[i].0)
}

/// The key lists of the non-empty objects in a value: each object before the
/// objects inside it, in document order.
pub open spec fn spec_key_lists(v: SpecValue) -> Seq<Seq<Seq<char>>>
    decreases v,
{
    match v {
        SpecValue::Array(a) => spec_key_lists_items(a),
        SpecValue::Object(m) => (if m.len() > 0 {
            seq![keys_of(m)]
        } else {
            Seq::empty()
        }) + spec_key_lists_pairs(m),
        _ => Seq::empty(),
    }
}

/// The key lists of the objects in array elements, one element after another.
pub open spec fn spec_key_lists_items(a: Seq<SpecValue>) -> Seq<Seq<Seq<char>>>
    decreases a,
{
    if a.len() == 0 {
        Seq::empty()
    } else {
        spec_key_lists_items(a.subrange(0, a.len() - 1)) + spec_key_lists(a[a.len() - 1])
    }
}

/// The key lists of the objects in object values, one value after another.
pub open spec fn spec_key_lists_pairs(m: Seq<(Seq<char>, SpecValue)>) -> Seq<Seq<Seq<char>>>
    decreases m,
{
    if m.len() == 0 {
        Seq::empty()
    } else {
        spec_key_lists_pairs(m.subrange(0, m.len() - 1)) + spec_key_lists(m[m.len() - 1].1)
    }
}

/// The model of a list of keys.
pub open spec fn key_list_view(k: Vec<String>) -> Seq<Seq<char>> {
    Seq::new(k@.len(), |i: int| k@[i]@)
}

/// The model of a list of key lists.
pub open spec fn key_lists_view(s: Seq<Vec<String>>) -> Seq<Seq<Seq<char>>> {
    Seq::new(s.len(), |i: int| key_list_view(s[i]))
}

/// Append the key lists of the non-empty objects in `value`.
fn collect_key_lists(value: &Value, out: &mut Vec<Vec<String>>)
    ensures
        key_lists_view(final(out)@) == key_lists_view(old(out)@) + spec_key_lists(value@),
    decreases value,
{
    match value {
        Value::Array(arr) => {
            proof {
                lemma_view_array(*arr);
            }
            let ghost items = view_values(arr@);
            let ghost start = key_lists_view(out@);
            let mut i: usize = 0;
            assert(items.subrange(0, 0) =~= Seq::<SpecValue>::empty());
            assert(start + Seq::empty() =~= start);
            while i < arr.len()
                invariant
                    i <= arr@.len(),
                    items == view_values(arr@),
                    value@ == SpecValue::Array(items),
                    *value == Value::Array(*arr),
                    key_lists_view(out@) == start + spec_key_lists_items(
                        items.subrange(0, i as int),
                    ),
                decreases arr@.len() - i,
            {
                proof {
                    assert(decreases_to!(*value => *arr));
                    assert(decreases_to!(*arr => arr@));
                    assert(decreases_to!(arr@ => arr@[i as int]));
                }
                collect_key_lists(&arr[i], out);
                proof {
                    let s = items.subrange(0, i + 1);
                    assert(s.subrange(0, s.len() - 1) =~= items.subrange(0, i as int));
                    assert(s[s.len() - 1] == arr@[i as int]@);
                    assert(key_lists_view(out@) =~= start + spec_key_lists_items(s));
                }
                i += 1;
            }
            proof {
                assert(items.subrange(0, i as int) =~= items);
            }
        },
        Value::Object(m) => {
            proof {
                lemma_view_object(*m);
            }
            let ghost pairs = view_entries(m@);
            let ghost start = key_lists_view(out@);
            if m.len() > 0 {
                let mut keys: Vec<String> = Vec::new();
                let mut j: usize = 0;
                while j < m.len()
                    invariant
                        j <= m@.len(),
                        pairs == view_entries(m@),
                        keys@.len() == j,
                        key_list_view(keys) == keys_of(pairs.subrange(0, j as int)),
                    decreases m@.len() - j,
                {
                    let ghost before = keys@;
                    keys.push(m[j].0.clone());
                    proof {
                        assert(keys@ == before.push(m@[j as int].0));
                        assert(pairs[j as int].0 == m@[j as int].0@);
                        assert forall|k: int| 0 <= k < j + 1 implies #[trigger] key_list_view(
                            keys,
                        )[k] == keys_of(pairs.subrange(0, j + 1))[k] by {
                            if k < j {
                                assert(before[k] == keys@[k]);
                                assert(key_list_view(keys)[k] == keys@[k]@);
                                assert(Seq::new(before.len(), |i: int| before[i]@)[k] == keys_of(
                                    pairs.subrange(0, j as int),
                                )[k]);
                            }
                        }
                        assert(key_list_view(keys) =~= keys_of(pairs.subrange(0, j + 1)));
                    }
                    j += 1;
                }
                assert(pairs.subrange(0, m@.len() as int) =~= pairs);
                out.push(keys);
                assert(key_lists_view(out@) =~= start + seq![keys_of(pairs)]);
            } else {
                assert(key_lists_view(out@) =~= start + Seq::empty());
            }
            let ghost mid = key_lists_view(out@);
            let mut i: usize = 0;
            assert(pairs.subrange(0, 0) =~= Seq::<(Seq<char>, SpecValue)>::empty());
            assert(mid + Seq::empty() =~= mid);
            while i < m.len()
                invariant
                    i <= m@.len(),
                    pairs == view_entries(m@),
                    value@ == SpecValue::Object(pairs),
                    *value == Value::Object(*m),
                    key_lists_view(out@) == mid + spec_key_lists_pairs(pairs.subrange(0, i as int)),
                decreases m@.len() - i,
            {
                proof {
                    assert(decreases_to!(*value => *m));
                    assert(decreases_to!(*m => m@));
                    assert(decreases_to!(m@ => m@[i as int]));
                    assert(decreases_to!(m@[i as int] => m@[i as int].1));
                }
                collect_key_lists(&m[i].1, out);
                proof {
                    let s = pairs.subrange(0, i + 1);
                    assert(s.subrange(0, s.len() - 1) =~= pairs.subrange(0, i as int));
                    assert(s[s.len() - 1].1 == m@[i as int].1@);
                    assert(key_lists_view(out@) =~= mid + spec_key_lists_pairs(s));
                }
                i += 1;
            }
            proof {
                assert(pairs.subrange(0, i as int) =~= pairs);
            }
        },
        _ => {
            assert(key_lists_view(out@) =~= key_lists_view(old(out)@) + spec_key_lists(value@));
        },
    }
}

/// Lexicographic order of key lists by key order; a proper prefix comes first.
pub open spec fn list_lt(a: Seq<Seq<char>>, b: Seq<Seq<char>>) -> bool
    decreases a.len(),
{
    if b.len() == 0 {
        false
    } else if a.len() == 0 {
        true
    } else if a[0] != b[0] {
        key_lt(a[0], b[0])
    } else {
        list_lt(a.drop_first(), b.drop_first())
    }
}

/// The order of key lists is a strict total order.
pub proof fn lemma_list_order(a: Seq<Seq<char>>, b: Seq<Seq<char>>, c: Seq<Seq<char>>)
    ensures
        !list_lt(a, a),
        list_lt(a, b) ==> !list_lt(b, a),
        list_lt(a, b) && list_lt(b, c) ==> list_lt(a, c),
        a == b || list_lt(a, b) || list_lt(b, a),
    decreases a.len(),
{
    if a.len() == 0 && b.len() == 0 {
        assert(a =~= b);
    }
    if a.len() > 0 && b.len() > 0 {
        let c2 = if c.len() > 0 {
            c.drop_first()
        } else {
            c
        };
        lemma_list_order(a.drop_first(), b.drop_first(), c2);
        lemma_key_order(a[0], b[0], if c.len() > 0 {
            c[0]
        } else {
            a[0]
        });
        lemma_key_order(b[0], a[0], a[0]);
        if c.len() > 0 {
            lemma_key_order(a[0], c[0], c[0]);
        }
        if a[0] == b[0] && a.drop_first() == b.drop_first() {
            assert(a =~= b) by {
                assert forall|i: int| 0 <= i < a.len() implies #[trigger] a[i] == b[i] by {
                    if i > 0 {
                        assert(a[i] == a.drop_first()[i - 1]);
                        assert(b[i] == b.drop_first()[i - 1]);
                    }
                }
            }
        }
    } else if a.len() > 0 {
        lemma_list_order(a.drop_first(), a.drop_first(), a.drop_first());
    }
}

/// Two key lists that agree on their first `i` keys compare as what follows.
proof fn lemma_list_lt_skip(a: Seq<Seq<char>>, b: Seq<Seq<char>>, i: int)
    requires
        0 <= i <= a.len(),
        i <= b.len(),
        a.take(i) == b.take(i),
    ensures
        list_lt(a, b) == list_lt(a.skip(i), b.skip(i)),
    decreases i,
{
    if i > 0 {
        assert(a[0] == a.take(i)[0]);
        assert(b[0] == b.take(i)[0]);
        assert(a.drop_first().take(i - 1) =~= b.drop_first().take(i - 1)) by {
            assert forall|j: int| 0 <= j < i - 1 implies #[trigger] a.drop_first().take(i - 1)[j]
                == b.drop_first().take(i - 1)[j] by {
                assert(a.take(i)[j + 1] == b.take(i)[j + 1]);
            }
        }
        lemma_list_lt_skip(a.drop_first(), b.drop_first(), i - 1);
        assert(a.drop_first().skip(i - 1) =~= a.skip(i));
        assert(b.drop_first().skip(i - 1) =~= b.skip(i));
    } else {
        assert(a.skip(0) =~= a);
        assert(b.skip(0) =~= b);
    }
}

/// Compare two key lists: negative, zero or positive.
pub fn compare_key_lists(a: &Vec<String>, b: &Vec<String>) -> (r: i8)
    ensures
        r < 0 <==> list_lt(key_list_view(*a), key_list_view(*b)),
        r == 0 <==> key_list_view(*a) == key_list_view(*b),
        r > 0 <==> list_lt(key_list_view(*b), key_list_view(*a)),
{
    let ghost va = key_list_view(*a);
    let ghost vb = key_list_view(*b);
    proof {
        lemma_list_order(va, vb, vb);
    }
    let mut i: usize = 0;
    while i < a.len() && i < b.len()
        invariant
            va == key_list_view(*a),
            vb == key_list_view(*b),
            i <= a@.len(),
            i <= b@.len(),
            va.take(i as int) == vb.take(i as int),
        decreases a@.len() - i,
    {
        let c = compare_keys(a[i].as_str(), b[i].as_str());
        proof {
            lemma_list_lt_skip(va, vb, i as int);
            lemma_list_lt_skip(vb, va, i as int);
            assert(va.skip(i as int)[0] == va[i as int]);
            assert(vb.skip(i as int)[0] == vb[i as int]);
            assert(va[i as int] == a@[i as int]@);
            assert(vb[i as int] == b@[i as int]@);
            lemma_key_order(va[i as int], vb[i as int], vb[i as int]);
        }
        if c != 0 {
            proof {
                if va == vb {
                    assert(va[i as int] == vb[i as int]);
                }
            }
            return c;
        }
        proof {
            assert(va.take(i + 1) =~= vb.take(i + 1)) by {
                assert forall|j: int| 0 <= j < i + 1 implies #[trigger] va.take(i + 1)[j] == vb.take(
                    i + 1,
                )[j] by {
                    if j < i {
                        assert(va.take(i as int)[j] == vb.take(i as int)[j]);
                    }
                }
            }
        }
        i += 1;
    }
    proof {
        lemma_list_lt_skip(va, vb, i as int);
        lemma_list_lt_skip(vb, va, i as int);
    }
    if a.len() < b.len() {
        proof {
            if va == vb {
                assert(va.len() == vb.len());
            }
        }
        -1
    } else if a.len() > b.len() {
        proof {
            if va == vb {
                assert(va.len() == vb.len());
            }
        }
        1
    } else {
        proof {
            assert(va.take(i as int) =~= va);
            assert(vb.take(i as int) =~= vb);
        }
        0
    }
}

/// How many times `k` occurs in `s`.
pub open spec fn count_of(s: Seq<Seq<Seq<char>>>, k: Seq<Seq<char>>) -> nat
    decreases s.len(),
{
    if s.len() == 0 {
        0
    } else {
        count_of(s.drop_last(), k) + if s.last() == k {
            1nat
        } else {
            0nat
        }
    }
}

/// The key lists are strictly increasing, so none occurs twice.
pub open spec fn lists_sorted(r: Seq<Seq<Seq<char>>>) -> bool {
    forall|i: int, j: int| 0 <= i < j < r.len() ==> list_lt(#[trigger] r[i], #[trigger] r[j])
}

proof fn lemma_count_present(s: Seq<Seq<Seq<char>>>, k: Seq<Seq<char>>)
    ensures
        count_of(s, k) > 0 ==> s.contains(k),
        count_of(s, k) <= s.len(),
    decreases s.len(),
{
    if s.len() > 0 {
        lemma_count_present(s.drop_last(), k);
        if count_of(s.drop_last(), k) > 0 {
            let j = choose|j: int| 0 <= j < s.drop_last().len() && s.drop_last()[j] == k;
            assert(s[j] == k);
        }
        if s.last() == k {
            assert(s[s.len() - 1] == k);
        }
    }
}

/// A copy of a key list.
fn clone_keys(k: &Vec<String>) -> (r: Vec<String>)
    ensures
        key_list_view(r) == key_list_view(*k),
{
    let mut r: Vec<String> = Vec::new();
    let mut i: usize = 0;
    while i < k.len()
        invariant
            i <= k@.len(),
            r@.len() == i,
            forall|j: int| 0 <= j < i ==> #[trigger] r@[j]@ == k@[j]@,
        decreases k@.len() - i,
    {
        r.push(k[i].clone());
        i += 1;
    }
    assert(key_list_view(r) =~= key_list_view(*k));
    r
}

/// How many of the key lists in `all` equal `k`.
fn count_in(all: &Vec<Vec<String>>, k: &Vec<String>) -> (n: usize)
    ensures
        n == count_of(key_lists_view(all@), key_list_view(*k)),
{
    let ghost s = key_lists_view(all@);
    let mut n: usize = 0;
    let mut j: usize = 0;
    while j < all.len()
        invariant
            s == key_lists_view(all@),
            j <= all@.len(),
            n == count_of(s.take(j as int), key_list_view(*k)),
            n <= j,
        decreases all@.len() - j,
    {
        let c = compare_key_lists(&all[j], k);
        proof {
            let t = s.take(j + 1);
            assert(t.drop_last() =~= s.take(j as int));
            assert(t.last() == key_list_view(all@[j as int]));
        }
        if c == 0 {
            n += 1;
        }
        j += 1;
    }
    assert(s.take(all@.len() as int) =~= s);
    n
}

/// Insert a key list into strictly increasing key lists, unless it is there.
fn sorted_insert(defs: &mut Vec<Vec<String>>, k: Vec<String>)
    requires
        lists_sorted(key_lists_view(old(defs)@)),
    ensures
        lists_sorted(key_lists_view(final(defs)@)),
        forall|x: Seq<Seq<char>>|
            #[trigger] key_lists_view(final(defs)@).contains(x) <==> key_lists_view(
                old(defs)@,
            ).contains(x) || x == key_list_view(k),
{
    let ghost s = key_lists_view(defs@);
    let ghost kv = key_list_view(k);
    let mut i: usize = 0;
    while i < defs.len()
        invariant
            s == key_lists_view(defs@),
            defs@ == old(defs)@,
            kv == key_list_view(k),
            lists_sorted(s),
            i <= defs@.len(),
            forall|j: int| 0 <= j < i ==> list_lt(#[trigger] s[j], kv),
        ensures
            i < defs@.len() ==> list_lt(kv, s[i as int]),
        decreases defs@.len() - i,
    {
        let c = compare_key_lists(&defs[i], &k);
        assert(s[i as int] == key_list_view(defs@[i as int]));
        if c == 0 {
            assert(s.contains(kv)) by {
                assert(s[i as int] == kv);
            }
            return;
        }
        if c > 0 {
            break;
        }
        i += 1;
    }
    proof {
        assert forall|j: int| i <= j < s.len() implies list_lt(kv, #[trigger] s[j]) by {
            lemma_list_order(kv, s[i as int], s[j]);
            lemma_list_order(s[i as int], kv, kv);
        }
    }
    defs.insert(i, k);
    proof {
        let r = key_lists_view(defs@);
        assert(r =~= s.insert(i as int, kv));
        assert forall|a: int, b: int| 0 <= a < b < r.len() implies list_lt(
            #[trigger] r[a],
            #[trigger] r[b],
        ) by {
            if b < i {
            } else if a < i && b == i {
            } else if a < i && b > i {
                lemma_list_order(s[a], kv, s[b - 1]);
            } else if a == i {
            } else {
                assert(r[a] == s[a - 1] && r[b] == s[b - 1]);
            }
        }
        assert forall|x: Seq<Seq<char>>| #[trigger] r.contains(x) <==> s.contains(x) || x == kv by {
            if s.contains(x) {
                let j = choose|j: int| 0 <= j < s.len() && s[j] == x;
                if j < i {
                    assert(r[j] == x);
                } else {
                    assert(r[j + 1] == x);
                }
            }
            if x == kv {
                assert(r[i as int] == x);
            }
            if r.contains(x) {
                let j = choose|j: int| 0 <= j < r.len() && r[j] == x;
                if j < i {
                    assert(s[j] == x);
                } else if j > i {
                    assert(s[j - 1] == x);
                }
            }
        }
    }
}

/// Collect record definitions from a value: the key lists that two or more
/// non-empty objects in it have, in increasing order.
pub fn collect_record_definitions(value: &Value) -> (r: Vec<Vec<String>>)
    ensures
        lists_sorted(key_lists_view(r@)),
        forall|k: Seq<Seq<char>>|
            #[trigger] key_lists_view(r@).contains(k) <==> count_of(spec_key_lists(value@), k)
                >= 2,
{
    let mut all: Vec<Vec<String>> = Vec::new();
    collect_key_lists(value, &mut all);
    let ghost s = key_lists_view(all@);
    assert(s =~= spec_key_lists(value@));
    let mut defs: Vec<Vec<String>> = Vec::new();
    let mut i: usize = 0;
    while i < all.len()
        invariant
            s == key_lists_view(all@),
            i <= all@.len(),
            lists_sorted(key_lists_view(defs@)),
            forall|k: Seq<Seq<char>>|
                #[trigger] key_lists_view(defs@).contains(k) <==> (count_of(s, k) >= 2 && exists|j: int|
                    0 <= j < i && s[j] == k),
        decreases all@.len() - i,
    {
        let n = count_in(&all, &all[i]);
        assert(s[i as int] == key_list_view(all@[i as int]));
        if n >= 2 {
            let copy = clone_keys(&all[i]);
            sorted_insert(&mut defs, copy);
        }
        proof {
            assert forall|k: Seq<Seq<char>>|
                #[trigger] key_lists_view(defs@).contains(k) <==> (count_of(s, k) >= 2 && exists|j: int|
                    0 <= j < i + 1 && s[j] == k) by {
                if exists|j: int| 0 <= j < i + 1 && s[j] == k {
                    let j = choose|j: int| 0 <= j < i + 1 && s[j] == k;
                    if j < i {
                        assert(exists|j2: int| 0 <= j2 < i && s[j2] == k);
                    }
                }
            }
        }
        i += 1;
    }
    proof {
        assert forall|k: Seq<Seq<char>>| #[trigger] key_lists_view(defs@).contains(k) <==> count_of(
            s,
            k,
        ) >= 2 by {
            lemma_count_present(s, k);
        }
    }
    defs
}

} // verus!
