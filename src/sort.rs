//! A stable sort of owned values by their start instant.
use vstd::prelude::*;

verus! {

/// A value that begins at an instant.
pub trait Timed {
    /// The start instant, as a mathematical integer.
    spec fn start_key(&self) -> int;

    fn start_time(&self) -> (r: i64)
        ensures
            r as int == self.start_key(),
    ;
}

/// The values of `s` come in non-decreasing order of start.
pub open spec fn sorted_by_start<T: Timed>(s: Seq<T>) -> bool {
    forall|i: int, j: int| 0 <= i < j < s.len() ==> s[i].start_key() <= s[j].start_key()
}

/// `x` placed into `s` before the first value whose key is at least `x`'s.
pub open spec fn insert_by_key<T>(s: Seq<T>, x: T, key: spec_fn(T) -> int) -> Seq<T>
    decreases s.len(),
{
    if s.len() == 0 {
        seq![x]
    } else if key(x) <= key(s[0]) {
        seq![x] + s
    } else {
        seq![s[0]] + insert_by_key(s.drop_first(), x, key)
    }
}

/// The stable sort of `s` by `key`: values in order of key, and values with
/// equal keys in their order in `s`.
pub open spec fn stable_sort_by<T>(s: Seq<T>, key: spec_fn(T) -> int) -> Seq<T>
    decreases s.len(),
{
    if s.len() == 0 {
        seq![]
    } else {
        insert_by_key(stable_sort_by(s.drop_first(), key), s[0], key)
    }
}

/// The start key of a timed value, as a function.
pub open spec fn start_keys<T: Timed>() -> spec_fn(T) -> int {
    |t: T| t.start_key()
}

/// Inserting before the first value with a key at least `x`'s is
/// `insert_by_key`.
pub proof fn lemma_insert_by_key<T>(s: Seq<T>, x: T, key: spec_fn(T) -> int, p: int)
    requires
        0 <= p <= s.len(),
        forall|q: int| 0 <= q < p ==> key(#[trigger] s[q]) < key(x),
        p < s.len() ==> key(x) <= key(s[p]),
    ensures
        insert_by_key(s, x, key) == s.insert(p, x),
    decreases s.len(),
{
    if s.len() == 0 {
        assert(s.insert(p, x) =~= seq![x]);
    } else if p == 0 {
        assert(s.insert(p, x) =~= seq![x] + s);
    } else {
        assert(key(s[0]) < key(x));
        let t = s.drop_first();
        assert forall|q: int| 0 <= q < p - 1 implies key(#[trigger] t[q]) < key(x) by {
            assert(t[q] == s[q + 1]);
        }
        if p - 1 < t.len() {
            assert(t[p - 1] == s[p]);
        }
        lemma_insert_by_key(t, x, key, p - 1);
        assert(s.insert(p, x) =~= seq![s[0]] + t.insert(p - 1, x));
    }
}

/// Mapping commutes with inserting by key, when the keys agree.
pub proof fn lemma_insert_by_key_map<A, B>(
    s: Seq<A>,
    x: A,
    f: spec_fn(A) -> B,
    ka: spec_fn(A) -> int,
    kb: spec_fn(B) -> int,
)
    requires
        forall|a: A| #[trigger] kb(f(a)) == ka(a),
    ensures
        insert_by_key(s, x, ka).map_values(f) == insert_by_key(s.map_values(f), f(x), kb),
    decreases s.len(),
{
    let fs = s.map_values(f);
    if s.len() == 0 {
        assert(insert_by_key(s, x, ka).map_values(f) =~= seq![f(x)]);
    } else {
        assert(kb(f(x)) == ka(x));
        assert(kb(fs[0]) == ka(s[0]));
        if ka(x) <= ka(s[0]) {
            assert((seq![x] + s).map_values(f) =~= seq![f(x)] + fs);
        } else {
            lemma_insert_by_key_map(s.drop_first(), x, f, ka, kb);
            assert(fs.drop_first() =~= s.drop_first().map_values(f));
            assert((seq![s[0]] + insert_by_key(s.drop_first(), x, ka)).map_values(f) =~= seq![fs[0]]
                + insert_by_key(s.drop_first(), x, ka).map_values(f));
        }
    }
}

/// Mapping commutes with the stable sort, when the keys agree.
pub proof fn lemma_stable_sort_map<A, B>(
    s: Seq<A>,
    f: spec_fn(A) -> B,
    ka: spec_fn(A) -> int,
    kb: spec_fn(B) -> int,
)
    requires
        forall|a: A| #[trigger] kb(f(a)) == ka(a),
    ensures
        stable_sort_by(s, ka).map_values(f) == stable_sort_by(s.map_values(f), kb),
    decreases s.len(),
{
    if s.len() == 0 {
        assert(stable_sort_by(s, ka).map_values(f) =~= Seq::<B>::empty());
        assert(s.map_values(f) =~= Seq::<B>::empty());
    } else {
        lemma_stable_sort_map(s.drop_first(), f, ka, kb);
        assert(s.map_values(f).drop_first() =~= s.drop_first().map_values(f));
        lemma_insert_by_key_map(stable_sort_by(s.drop_first(), ka), s[0], f, ka, kb);
    }
}

/// Sorts `v` by start; values with equal starts keep their order.
pub fn sort_by_start<T: Timed>(v: Vec<T>) -> (r: Vec<T>)
    ensures
        r@ == stable_sort_by(v@, start_keys::<T>()),
        sorted_by_start(r@),
        r@.to_multiset() =~= v@.to_multiset(),
{
    broadcast use vstd::seq_lib::group_to_multiset_ensures;

    let ghost all = v@.to_multiset();
    let ghost v0 = v@;
    let mut rest = v;
    let mut out: Vec<T> = Vec::new();
    while rest.len() > 0
        invariant
            sorted_by_start(out@),
            rest@.to_multiset().add(out@.to_multiset()) =~= all,
            rest@ == v0.take(rest@.len() as int),
            rest@.len() <= v0.len(),
            out@ == stable_sort_by(v0.skip(rest@.len() as int), start_keys::<T>()),
        decreases rest.len(),
    {
        let ghost before = rest@;
        let x = rest.pop().unwrap();
        assert(before =~= rest@.push(x));
        let k = x.start_time();
        let mut p: usize = 0;
        while p < out.len() && out[p].start_time() < k
            invariant
                p <= out.len(),
                forall|q: int| 0 <= q < p ==> out@[q].start_key() < k,
            decreases out.len() - p,
        {
            p = p + 1;
        }
        let ghost old_out = out@;
        proof {
            vstd::seq_lib::to_multiset_insert(old_out, p as int, x);
            let r = rest@.len() as int;
            assert(x == v0[r]);
            assert(v0.skip(r).drop_first() =~= v0.skip(r + 1));
            assert(v0.skip(r)[0] == x);
            if p < old_out.len() {
                assert(old_out[p as int].start_key() >= k);
            }
            lemma_insert_by_key(old_out, x, start_keys::<T>(), p as int);
        }
        out.insert(p, x);
        proof {
            vstd::seq_lib::to_multiset_build(rest@, x);
        }
        assert(before.to_multiset() =~= rest@.to_multiset().insert(x));
        assert(rest@.to_multiset().add(out@.to_multiset()) =~= before.to_multiset().add(
            old_out.to_multiset(),
        ));
        assert forall|i: int, j: int| 0 <= i < j < out@.len() implies out@[i].start_key()
            <= out@[j].start_key() by {
            if p < old_out.len() {
                assert(old_out[p as int].start_key() >= k);
            }
            if i < p && j > p {
                assert(old_out[j - 1].start_key() >= old_out[p as int].start_key());
            }
        }
    }
    assert(v0.skip(0) =~= v0);
    out
}

/// Two sequences with the same multiset hold each other's values.
pub proof fn lemma_permutation_contains<T>(a: Seq<T>, b: Seq<T>, i: int)
    requires
        a.to_multiset() == b.to_multiset(),
        0 <= i < a.len(),
    ensures
        exists|j: int| 0 <= j < b.len() && b[j] == a[i],
{
    vstd::seq_lib::to_multiset_contains(a, a[i]);
    vstd::seq_lib::to_multiset_contains(b, a[i]);
    assert(a.contains(a[i]));
}

} // verus!
