use vstd::prelude::*;

verus! {

/// Strict lexicographic order on character sequences, by code point. For
/// valid UTF-8 this is the order in which `str` compares its bytes.
pub open spec fn seq_lt(a: Seq<char>, b: Seq<char>) -> bool
    decreases a.len(),
{
    if a.len() == 0 {
        b.len() > 0
    } else if b.len() == 0 {
        false
    } else if a[0] != b[0] {
        (a[0] as int) < (b[0] as int)
    } else {
        seq_lt(a.drop_first(), b.drop_first())
    }
}

/// `a` comes strictly before `b` in the requested direction.
pub open spec fn precedes(a: Seq<char>, b: Seq<char>, desc: bool) -> bool {
    if desc { seq_lt(b, a) } else { seq_lt(a, b) }
}

/// `seq_lt` is irreflexive.
pub proof fn lemma_lt_irrefl(a: Seq<char>)
    ensures
        !seq_lt(a, a),
    decreases a.len(),
{
    if a.len() > 0 {
        lemma_lt_irrefl(a.drop_first());
    }
}

/// `seq_lt` is transitive.
pub proof fn lemma_lt_trans(a: Seq<char>, b: Seq<char>, c: Seq<char>)
    requires
        seq_lt(a, b),
        seq_lt(b, c),
    ensures
        seq_lt(a, c),
    decreases a.len(),
{
    if a.len() > 0 && b.len() > 0 && c.len() > 0 && a[0] == b[0] && b[0] == c[0] {
        lemma_lt_trans(a.drop_first(), b.drop_first(), c.drop_first());
    }
}

/// Two sequences are equal or one is strictly before the other.
pub proof fn lemma_lt_total(a: Seq<char>, b: Seq<char>)
    ensures
        a == b || seq_lt(a, b) || seq_lt(b, a),
    decreases a.len(),
{
    if a.len() > 0 && b.len() > 0 && a[0] == b[0] {
        lemma_lt_total(a.drop_first(), b.drop_first());
        if a.drop_first() == b.drop_first() {
            assert(a =~= seq![a[0]] + a.drop_first());
            assert(b =~= seq![b[0]] + b.drop_first());
        }
    } else if a.len() == 0 && b.len() == 0 {
        assert(a =~= b);
    }
}

/// `seq_lt` is asymmetric.
pub proof fn lemma_lt_asym(a: Seq<char>, b: Seq<char>)
    requires
        seq_lt(a, b),
    ensures
        !seq_lt(b, a),
{
    if seq_lt(b, a) {
        lemma_lt_trans(a, b, a);
        lemma_lt_irrefl(a);
    }
}

/// Whether `a` is strictly before `b` in code point order.
pub fn str_lt(a: &str, b: &str) -> (r: bool)
    ensures
        r == seq_lt(a@, b@),
{
    let av = crate::text::chars_of(a);
    let bv = crate::text::chars_of(b);
    let mut i: usize = 0;
    proof {
        assert(a@.skip(0) =~= a@);
        assert(b@.skip(0) =~= b@);
        assert(av@.take(0) =~= bv@.take(0));
    }
    while i < av.len() && i < bv.len()
        invariant
            i <= av.len(),
            i <= bv.len(),
            av@ == a@,
            bv@ == b@,
            av@.take(i as int) == bv@.take(i as int),
            seq_lt(a@, b@) == seq_lt(a@.skip(i as int), b@.skip(i as int)),
        decreases av.len() - i,
    {
        let ca = av[i];
        let cb = bv[i];
        proof {
            assert(a@.skip(i as int)[0] == ca);
            assert(b@.skip(i as int)[0] == cb);
        }
        if ca != cb {
            return ca < cb;
        }
        proof {
            assert(a@.skip(i as int).drop_first() =~= a@.skip(i + 1));
            assert(b@.skip(i as int).drop_first() =~= b@.skip(i + 1));
            assert(av@.take(i + 1) =~= av@.take(i as int).push(ca));
            assert(bv@.take(i + 1) =~= bv@.take(i as int).push(cb));
        }
        i = i + 1;
    }
    proof {
        assert(a@.skip(i as int).len() == a@.len() - i);
        assert(b@.skip(i as int).len() == b@.len() - i);
    }
    i < bv.len()
}

/// Where `key` is inserted into `s`: before the first element that it
/// precedes, so that it lands after every element with an equal key.
pub open spec fn insert_pos<T>(s: Seq<(Seq<char>, T)>, key: Seq<char>, desc: bool) -> nat
    decreases s.len(),
{
    if s.len() == 0 {
        0
    } else if precedes(key, s[0].0, desc) {
        0
    } else {
        1 + insert_pos(s.drop_first(), key, desc)
    }
}

/// Stable insertion sort by key: the elements are inserted in input order,
/// each after every element already placed whose key does not follow it.
pub open spec fn stable_sort<T>(s: Seq<(Seq<char>, T)>, desc: bool) -> Seq<(Seq<char>, T)>
    decreases s.len(),
{
    if s.len() == 0 {
        s
    } else {
        let rest = stable_sort(s.drop_last(), desc);
        rest.insert(insert_pos(rest, s.last().0, desc) as int, s.last())
    }
}

/// Keys never step backwards through the sequence.
pub open spec fn sorted_by_key<T>(s: Seq<(Seq<char>, T)>, desc: bool) -> bool {
    forall|i: int, j: int| 0 <= i < j < s.len() ==> !precedes(#[trigger] s[j].0, #[trigger] s[i].0, desc)
}

pub proof fn lemma_insert_pos_bound<T>(s: Seq<(Seq<char>, T)>, key: Seq<char>, desc: bool)
    ensures
        insert_pos(s, key, desc) <= s.len(),
        forall|i: int| 0 <= i < insert_pos(s, key, desc) ==> !precedes(key, #[trigger] s[i].0, desc),
        insert_pos(s, key, desc) < s.len() ==> precedes(key, s[insert_pos(s, key, desc) as int].0, desc),
    decreases s.len(),
{
    if s.len() > 0 && !precedes(key, s[0].0, desc) {
        lemma_insert_pos_bound(s.drop_first(), key, desc);
        assert forall|i: int| 0 <= i < insert_pos(s, key, desc) implies !precedes(key, #[trigger] s[i].0, desc) by {
            if i > 0 {
                assert(s[i] == s.drop_first()[i - 1]);
            }
        }
    }
}

proof fn lemma_precedes_trans(a: Seq<char>, b: Seq<char>, c: Seq<char>, desc: bool)
    requires
        precedes(a, b, desc),
        precedes(b, c, desc),
    ensures
        precedes(a, c, desc),
{
    if desc {
        lemma_lt_trans(c, b, a);
    } else {
        lemma_lt_trans(a, b, c);
    }
}

/// Not preceding is "at or after": if `b` does not precede `a` then `a`
/// precedes `b` or the two keys are equal.
proof fn lemma_not_precedes(a: Seq<char>, b: Seq<char>, desc: bool)
    requires
        !precedes(b, a, desc),
    ensures
        a == b || precedes(a, b, desc),
{
    lemma_lt_total(a, b);
}

/// The stable sort yields keys in order.
pub proof fn lemma_stable_sort_sorted<T>(s: Seq<(Seq<char>, T)>, desc: bool)
    ensures
        sorted_by_key(stable_sort(s, desc), desc),
        stable_sort(s, desc).len() == s.len(),
    decreases s.len(),
{
    if s.len() > 0 {
        let rest = stable_sort(s.drop_last(), desc);
        lemma_stable_sort_sorted(s.drop_last(), desc);
        let x = s.last();
        let p = insert_pos(rest, x.0, desc) as int;
        lemma_insert_pos_bound(rest, x.0, desc);
        let out = rest.insert(p, x);
        assert forall|i: int, j: int| 0 <= i < j < out.len() implies !precedes(#[trigger] out[j].0, #[trigger] out[i].0, desc) by {
            if i < p && j == p {
                // rest[i] does not follow x
                if precedes(x.0, rest[i].0, desc) {
                }
            } else if i == p && j > p {
                // x precedes rest[p] and rest[p] is at or before rest[j - 1]
                let y = rest[j - 1];
                if precedes(y.0, x.0, desc) {
                    assert(precedes(x.0, rest[p].0, desc));
                    if j - 1 > p {
                        lemma_not_precedes(rest[p].0, y.0, desc);
                        if rest[p].0 != y.0 {
                            lemma_precedes_trans(x.0, rest[p].0, y.0, desc);
                        }
                    }
                    lemma_precedes_trans(x.0, y.0, x.0, desc);
                    if desc { lemma_lt_irrefl(x.0); } else { lemma_lt_irrefl(x.0); }
                }
            } else if i < p && j > p {
                assert(out[i] == rest[i]);
                assert(out[j] == rest[j - 1]);
            } else if j < p {
                assert(out[i] == rest[i]);
                assert(out[j] == rest[j]);
            } else {
                assert(out[i] == rest[i - 1]);
                assert(out[j] == rest[j - 1]);
            }
        }
    }
}

/// The stable sort rearranges its input: each element keeps its multiplicity.
pub proof fn lemma_stable_sort_perm<T>(s: Seq<(Seq<char>, T)>, desc: bool)
    ensures
        stable_sort(s, desc).to_multiset() == s.to_multiset(),
    decreases s.len(),
{
    broadcast use vstd::seq_lib::group_to_multiset_ensures;
    if s.len() > 0 {
        let rest = stable_sort(s.drop_last(), desc);
        lemma_stable_sort_perm(s.drop_last(), desc);
        lemma_stable_sort_sorted(s.drop_last(), desc);
        let p = insert_pos(rest, s.last().0, desc) as int;
        lemma_insert_pos_bound(rest, s.last().0, desc);
        vstd::seq_lib::lemma_seq_union_to_multiset_commutative(rest.take(p), seq![s.last()]);
        assert(rest.insert(p, s.last()) =~= rest.take(p) + seq![s.last()] + rest.skip(p));
        assert(rest =~= rest.take(p) + rest.skip(p));
        vstd::seq_lib::lemma_multiset_commutative(rest.take(p) + seq![s.last()], rest.skip(p));
        vstd::seq_lib::lemma_multiset_commutative(rest.take(p), seq![s.last()]);
        vstd::seq_lib::lemma_multiset_commutative(rest.take(p), rest.skip(p));
        assert(s =~= s.drop_last().push(s.last()));
    }
}

/// The items with their keys taken as character sequences.
pub open spec fn keyed_view<T>(v: Seq<(String, T)>) -> Seq<(Seq<char>, T)> {
    v.map_values(|p: (String, T)| (p.0@, p.1))
}

/// Sorts keyed items by key, keeping the input order of items with equal keys;
/// `desc` reverses the key order (still keeping equal keys in input order).
pub fn sort_keyed<T>(v: Vec<(String, T)>, desc: bool) -> (out: Vec<(String, T)>)
    ensures
        keyed_view(out@) == stable_sort(keyed_view(v@), desc),
{
    let ghost orig = keyed_view(v@);
    let ghost n = v.len();
    let mut v = v;
    let mut out: Vec<(String, T)> = Vec::new();
    let mut k: usize = 0;
    while v.len() > 0
        invariant
            k + v.len() == n,
            orig.len() == n,
            keyed_view(v@) == orig.skip(k as int),
            keyed_view(out@) == stable_sort(orig.take(k as int), desc),
        decreases v.len(),
    {
        let ghost before = v@;
        let x = v.remove(0);
        proof {
            assert(v@ =~= before.subrange(1, before.len() as int));
        }
        let ghost sorted = keyed_view(out@);
        proof {
            assert(orig.skip(k as int)[0] == orig[k as int]);
            assert((x.0@, x.1) == orig[k as int]);
        }
        let mut j: usize = 0;
        proof {
            assert(sorted.skip(0) =~= sorted);
        }
        while j < out.len() && !precedes_exec(&x.0, &out[j].0, desc)
            invariant
                j <= out.len(),
                sorted == keyed_view(out@),
                insert_pos(sorted, x.0@, desc) == j + insert_pos(sorted.skip(j as int), x.0@, desc),
            decreases out.len() - j,
        {
            proof {
                assert(sorted.skip(j as int)[0] == sorted[j as int]);
                assert(sorted.skip(j as int).drop_first() =~= sorted.skip(j + 1));
            }
            j = j + 1;
        }
        proof {
            if j < out.len() {
                assert(sorted.skip(j as int)[0] == sorted[j as int]);
            }
            assert(insert_pos(sorted, x.0@, desc) == j);
            assert(orig.take(k + 1).drop_last() =~= orig.take(k as int));
            assert(orig.take(k + 1).last() == orig[k as int]);
        }
        out.insert(j, x);
        proof {
            assert(keyed_view(out@) =~= sorted.insert(j as int, (x.0@, x.1)));
            assert forall|t: int| 0 <= t < v@.len() implies
                #[trigger] keyed_view(v@)[t] == orig.skip(k + 1)[t] by {
                assert(v@[t] == before[t + 1]);
                assert(orig.skip(k as int)[t + 1] == orig.skip(k + 1)[t]);
            }
            assert(keyed_view(v@) =~= orig.skip(k + 1));
        }
        k = k + 1;
    }
    proof {
        assert(orig.take(n as int) =~= orig);
    }
    out
}

fn precedes_exec(a: &String, b: &String, desc: bool) -> (r: bool)
    ensures
        r == precedes(a@, b@, desc),
{
    if desc { str_lt(b.as_str(), a.as_str()) } else { str_lt(a.as_str(), b.as_str()) }
}

} // verus!
