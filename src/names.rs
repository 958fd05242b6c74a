//! Names kept in lexicographic order, which fixes the order of the output
//! and rules out repeated names.
use vstd::prelude::*;
use vstd::string::*;

verus! {

/// Lexicographic order on character sequences, by code point.
pub open spec fn name_lt(a: Seq<char>, b: Seq<char>) -> bool
    decreases a.len(),
{
    if a.len() == 0 {
        b.len() > 0
    } else if b.len() == 0 {
        false
    } else if a[0] != b[0] {
        (a[0] as int) < (b[0] as int)
    } else {
        name_lt(a.drop_first(), b.drop_first())
    }
}

pub open spec fn views(v: Seq<String>) -> Seq<Seq<char>> {
    v.map_values(|s: String| s@)
}

/// Strictly increasing, hence without repetition.
pub open spec fn sorted(v: Seq<Seq<char>>) -> bool {
    forall|i: int, j: int| 0 <= i < j < v.len() ==> name_lt(#[trigger] v[i], #[trigger] v[j])
}

pub proof fn lemma_lt_irreflexive(a: Seq<char>)
    ensures
        !name_lt(a, a),
    decreases a.len(),
{
    if a.len() > 0 {
        lemma_lt_irreflexive(a.drop_first());
    }
}

pub proof fn lemma_lt_total(a: Seq<char>, b: Seq<char>)
    ensures
        a != b ==> name_lt(a, b) || name_lt(b, a),
        !(name_lt(a, b) && name_lt(b, a)),
    decreases a.len(),
{
    if a.len() > 0 && b.len() > 0 {
        lemma_lt_total(a.drop_first(), b.drop_first());
        if a[0] == b[0] && a != b {
            assert(a =~= seq![a[0]] + a.drop_first());
            assert(b =~= seq![b[0]] + b.drop_first());
        }
        if a[0] != b[0] {
            assert(a[0] as int != b[0] as int);
        }
    } else if a.len() == 0 && b.len() == 0 {
        assert(a =~= b);
    }
}

pub proof fn lemma_lt_transitive(a: Seq<char>, b: Seq<char>, c: Seq<char>)
    requires
        name_lt(a, b),
        name_lt(b, c),
    ensures
        name_lt(a, c),
    decreases a.len(),
{
    if a.len() > 0 && b.len() > 0 && c.len() > 0 && a[0] == b[0] && b[0] == c[0] {
        lemma_lt_transitive(a.drop_first(), b.drop_first(), c.drop_first());
    }
}

/// Sorted names are pairwise distinct.
pub proof fn lemma_sorted_distinct(v: Seq<Seq<char>>)
    requires
        sorted(v),
    ensures
        v.no_duplicates(),
{
    assert forall|i: int, j: int| 0 <= i < v.len() && 0 <= j < v.len() && i != j
        implies v[i] != v[j] by {
        if i < j {
            lemma_lt_irreflexive(v[i]);
        } else {
            lemma_lt_irreflexive(v[j]);
        }
    }
}

/// Whether `a` comes before `b`.
pub fn str_lt(a: &str, b: &str) -> (r: bool)
    ensures
        r == name_lt(a@, b@),
{
    let na = a.unicode_len();
    let nb = b.unicode_len();
    let mut i: usize = 0;
    assert(a@.skip(0) =~= a@);
    assert(b@.skip(0) =~= b@);
    while i < na && i < nb
        invariant
            na == a@.len(),
            nb == b@.len(),
            i <= na,
            i <= nb,
            name_lt(a@, b@) == name_lt(a@.skip(i as int), b@.skip(i as int)),
        decreases na - i,
    {
        let ca = a.get_char(i);
        let cb = b.get_char(i);
        if ca != cb {
            return (ca as u32) < (cb as u32);
        }
        assert(a@.skip(i as int).drop_first() =~= a@.skip(i + 1));
        assert(b@.skip(i as int).drop_first() =~= b@.skip(i + 1));
        i = i + 1;
    }
    i < nb
}

/// Puts `s` at its place among sorted names; does nothing and returns
/// `false` where the name is already there.
pub fn insert_sorted(v: &mut Vec<String>, s: String) -> (r: bool)
    requires
        sorted(views(old(v)@)),
    ensures
        sorted(views(final(v)@)),
        r == !views(old(v)@).contains(s@),
        r ==> views(final(v)@).to_set() == views(old(v)@).to_set().insert(s@),
        r ==> final(v)@.len() == old(v)@.len() + 1,
        !r ==> final(v)@ == old(v)@,
{
    let ghost w = views(v@);
    let mut j: usize = 0;
    while j < v.len() && str_lt(v[j].as_str(), s.as_str())
        invariant
            w == views(v@),
            j <= v.len(),
            forall|k: int| 0 <= k < j ==> name_lt(#[trigger] w[k], s@),
        decreases v.len() - j,
    {
        j = j + 1;
    }
    if j < v.len() && v[j] == s {
        assert(w.contains(s@)) by {
            assert(w[j as int] == s@);
        }
        return false;
    }
    proof {
        if j < w.len() {
            lemma_lt_total(w[j as int], s@);
        }
        assert forall|k: int| j <= k < w.len() implies name_lt(s@, #[trigger] w[k]) by {
            if k > j {
                lemma_lt_transitive(s@, w[j as int], w[k]);
            }
        }
        assert(!w.contains(s@)) by {
            if w.contains(s@) {
                let k = choose|k: int| 0 <= k < w.len() && w[k] == s@;
                lemma_lt_irreflexive(s@);
            }
        }
    }
    let ghost sv = s@;
    v.insert(j, s);
    proof {
        let nw = views(v@);
        assert(nw =~= w.insert(j as int, sv));
        assert forall|a: int, b: int| 0 <= a < b < nw.len() implies name_lt(
            #[trigger] nw[a],
            #[trigger] nw[b],
        ) by {
            if b < j {
            } else if a < j && b == j {
            } else if a < j {
                assert(nw[b] == w[b - 1]);
            } else if a == j {
                assert(nw[b] == w[b - 1]);
            } else {
                assert(nw[a] == w[a - 1]);
                assert(nw[b] == w[b - 1]);
            }
        }
        assert(nw.to_set() =~= w.to_set().insert(sv)) by {
            assert forall|x| nw.to_set().contains(x) implies w.to_set().insert(sv).contains(x) by {
                let k = choose|k: int| 0 <= k < nw.len() && nw[k] == x;
                if k < j {
                    assert(w[k] == x);
                } else if k > j {
                    assert(w[k - 1] == x);
                }
            }
            assert forall|x| w.to_set().insert(sv).contains(x) implies nw.to_set().contains(x) by {
                if x == sv {
                    assert(nw[j as int] == x);
                } else {
                    let k = choose|k: int| 0 <= k < w.len() && w[k] == x;
                    if k < j {
                        assert(nw[k] == x);
                    } else {
                        assert(nw[k + 1] == x);
                    }
                }
            }
        }
    }
    true
}

} // verus!
