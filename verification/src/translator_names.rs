//! Ordering the names of the value formats offered for a signal: those that
//! suit the signal first, each group in numeric-aware order.

use vstd::prelude::*;

verus! {

/// The sign of `numeric_sort::cmp(a, b)`: -1, 0 or 1 for a before, equal to,
/// or after b, numbers inside the names compared by value.
pub uninterp spec fn numeric_order(a: Seq<char>, b: Seq<char>) -> int;

/// `numeric_sort::cmp`, a comparison that reads runs of digits as numbers.
/// The contract claims that its result depends on the two strings alone and
/// is one of its three outcomes; which outcome is left to the name.
#[verifier::external_body]
fn numeric_compare(a: &str, b: &str) -> (r: i8)
    ensures
        r == numeric_order(a@, b@),
        -1 <= r <= 1,
{
    match numeric_sort::cmp(a, b) {
        core::cmp::Ordering::Less => -1,
        core::cmp::Ordering::Equal => 0,
        core::cmp::Ordering::Greater => 1,
    }
}

/// `e` inserted after every name that does not sort after it.
pub open spec fn insert_numeric(s: Seq<Seq<char>>, e: Seq<char>) -> Seq<Seq<char>>
    decreases s.len(),
{
    if s.len() == 0 {
        seq![e]
    } else if numeric_order(s.last(), e) <= 0 {
        s.push(e)
    } else {
        insert_numeric(s.drop_last(), e).push(s.last())
    }
}

/// Names in numeric-aware order, names that compare equal kept in their
/// original order.
pub open spec fn sort_numeric(s: Seq<Seq<char>>) -> Seq<Seq<char>>
    decreases s.len(),
{
    if s.len() == 0 {
        Seq::empty()
    } else {
        insert_numeric(sort_numeric(s.drop_last()), s.last())
    }
}

/// The names whose flag is `keep`, in order.
pub open spec fn select(names: Seq<Seq<char>>, flags: Seq<bool>, keep: bool) -> Seq<Seq<char>>
    decreases names.len(),
{
    if names.len() == 0 {
        Seq::empty()
    } else {
        let rest = select(names.drop_last(), flags, keep);
        if flags[names.len() - 1] == keep {
            rest.push(names.last())
        } else {
            rest
        }
    }
}

pub open spec fn names_view(v: Seq<String>) -> Seq<Seq<char>> {
    v.map_values(|s: String| s@)
}

proof fn lemma_insert_numeric_at(s: Seq<Seq<char>>, e: Seq<char>, k: int)
    requires
        0 <= k <= s.len(),
        forall|m: int| k <= m < s.len() ==> numeric_order(#[trigger] s[m], e) > 0,
        k == 0 || numeric_order(s[k - 1], e) <= 0,
    ensures
        insert_numeric(s, e) == s.take(k).push(e) + s.skip(k),
    decreases s.len(),
{
    if s.len() == 0 {
        assert(s.take(k).push(e) + s.skip(k) =~= seq![e]);
    } else if numeric_order(s.last(), e) <= 0 {
        assert(k == s.len());
        assert(s.take(k).push(e) + s.skip(k) =~= s.push(e));
    } else {
        let d = s.drop_last();
        assert forall|m: int| k <= m < d.len() implies numeric_order(#[trigger] d[m], e) > 0 by {
            assert(d[m] == s[m]);
        }
        lemma_insert_numeric_at(d, e, k);
        assert(d.take(k).push(e) + d.skip(k) + seq![s.last()] =~= s.take(k).push(e) + s.skip(k));
    }
}

/// Sorts names in numeric-aware order, keeping equal names in order.
fn sort_names(names: Vec<String>) -> (out: Vec<String>)
    ensures
        names_view(out@) == sort_numeric(names_view(names@)),
{
    let ghost nv = names_view(names@);
    let mut out: Vec<String> = Vec::new();
    let mut rest = names;
    let mut i: usize = 0;
    let n = rest.len();
    assert(nv.take(0) =~= Seq::<Seq<char>>::empty());
    assert(names_view(out@) =~= Seq::<Seq<char>>::empty());
    while i < n
        invariant
            n == rest@.len(),
            nv == names_view(rest@),
            i <= n,
            names_view(out@) == sort_numeric(nv.take(i as int)),
        decreases n - i,
    {
        let e = rest[i].clone();
        let mut k = out.len();
        while k > 0 && numeric_compare(out[k - 1].as_str(), e.as_str()) > 0
            invariant
                k <= out@.len(),
                forall|m: int| k <= m < out@.len() ==> numeric_order(#[trigger] names_view(out@)[m], e@) > 0,
            decreases k,
        {
            k = k - 1;
        }
        proof {
            assert(nv.take(i + 1).drop_last() =~= nv.take(i as int));
            assert(nv[i as int] == e@);
            if k > 0 {
                assert(names_view(out@)[k - 1] == out@[k - 1]@);
            }
            lemma_insert_numeric_at(names_view(out@), e@, k as int);
        }
        let ghost before = out@;
        out.insert(k, e);
        proof {
            assert(names_view(out@) =~= names_view(before).take(k as int).push(e@) + names_view(before).skip(k as int));
        }
        i = i + 1;
    }
    assert(nv.take(n as int) =~= nv);
    out
}

/// The names split by `preferred` into those that suit the signal and the
/// rest, each group in numeric-aware order.
pub fn order_translator_names(names: &Vec<String>, preferred: &Vec<bool>) -> (r: (Vec<String>, Vec<String>))
    requires
        names@.len() == preferred@.len(),
    ensures
        names_view(r.0@) == sort_numeric(select(names_view(names@), preferred@, true)),
        names_view(r.1@) == sort_numeric(select(names_view(names@), preferred@, false)),
{
    let ghost nv = names_view(names@);
    let mut good: Vec<String> = Vec::new();
    let mut bad: Vec<String> = Vec::new();
    let mut i: usize = 0;
    assert(nv.take(0) =~= Seq::<Seq<char>>::empty());
    assert(names_view(good@) =~= Seq::<Seq<char>>::empty());
    assert(names_view(bad@) =~= Seq::<Seq<char>>::empty());
    while i < names.len()
        invariant
            names@.len() == preferred@.len(),
            nv == names_view(names@),
            i <= names@.len(),
            names_view(good@) == select(nv.take(i as int), preferred@, true),
            names_view(bad@) == select(nv.take(i as int), preferred@, false),
        decreases names@.len() - i,
    {
        let name = names[i].clone();
        proof {
            assert(nv.take(i + 1).drop_last() =~= nv.take(i as int));
            assert(nv.take(i + 1).last() == name@);
        }
        let ghost g0 = good@;
        let ghost b0 = bad@;
        if preferred[i] {
            good.push(name);
            assert(names_view(good@) =~= names_view(g0).push(nv[i as int]));
        } else {
            bad.push(name);
            assert(names_view(bad@) =~= names_view(b0).push(nv[i as int]));
        }
        i = i + 1;
    }
    assert(nv.take(names@.len() as int) =~= nv);
    (sort_names(good), sort_names(bad))
}

} // verus!
