//! Patch names: lexicographic order on names and sorted lists of distinct names.
//!
//! Names are compared character by character by code point, which is the order
//! of `String`'s `Ord` (UTF-8 preserves code point order).

use vstd::prelude::*;

verus! {

/// `a` comes strictly before `b`.
pub open spec fn lex_lt(a: Seq<char>, b: Seq<char>) -> bool
    decreases a.len(),
{
    if a.len() == 0 {
        b.len() > 0
    } else if b.len() == 0 {
        false
    } else if a[0] != b[0] {
        a[0] < b[0]
    } else {
        lex_lt(a.drop_first(), b.drop_first())
    }
}

/// Names in strictly increasing order.
pub open spec fn strictly_sorted(p: Seq<Seq<char>>) -> bool {
    forall|i: int, j: int| 0 <= i < j < p.len() ==> lex_lt(#[trigger] p[i], #[trigger] p[j])
}

pub proof fn lemma_lex_irreflexive(a: Seq<char>)
    ensures
        !lex_lt(a, a),
    decreases a.len(),
{
    if a.len() > 0 {
        lemma_lex_irreflexive(a.drop_first());
    }
}

pub proof fn lemma_lex_transitive(a: Seq<char>, b: Seq<char>, c: Seq<char>)
    requires
        lex_lt(a, b),
        lex_lt(b, c),
    ensures
        lex_lt(a, c),
    decreases a.len(),
{
    if a.len() > 0 && b.len() > 0 && c.len() > 0 && a[0] == b[0] && b[0] == c[0] {
        lemma_lex_transitive(a.drop_first(), b.drop_first(), c.drop_first());
    }
}

pub proof fn lemma_lex_total(a: Seq<char>, b: Seq<char>)
    ensures
        a == b || lex_lt(a, b) || lex_lt(b, a),
    decreases a.len(),
{
    if a.len() > 0 && b.len() > 0 && a[0] == b[0] {
        lemma_lex_total(a.drop_first(), b.drop_first());
        if a.drop_first() == b.drop_first() {
            assert(a.len() == b.len());
            assert forall|k: int| 0 <= k < a.len() implies a[k] == b[k] by {
                if k > 0 {
                    assert(a[k] == a.drop_first()[k - 1]);
                    assert(b[k] == b.drop_first()[k - 1]);
                }
            }
            assert(a =~= b);
        }
    } else if a.len() > 0 && b.len() > 0 {

    } else if a.len() == 0 && b.len() == 0 {
        assert(a =~= b);
    }
}

proof fn lemma_lex_skip(a: Seq<char>, b: Seq<char>, i: int)
    requires
        0 <= i <= a.len(),
        i <= b.len(),
        forall|k: int| 0 <= k < i ==> a[k] == b[k],
    ensures
        lex_lt(a, b) == lex_lt(a.skip(i), b.skip(i)),
    decreases i,
{
    if i > 0 {
        assert forall|k: int| 0 <= k < i - 1 implies a.drop_first()[k] == b.drop_first()[k] by {
            assert(a.drop_first()[k] == a[k + 1]);
            assert(b.drop_first()[k] == b[k + 1]);
        }
        lemma_lex_skip(a.drop_first(), b.drop_first(), i - 1);
        assert(a.drop_first().skip(i - 1) =~= a.skip(i));
        assert(b.drop_first().skip(i - 1) =~= b.skip(i));
    } else {
        assert(a.skip(0) =~= a);
        assert(b.skip(0) =~= b);
    }
}

/// Whether `a` comes strictly before `b`.
pub fn lex_less(a: &Vec<char>, b: &Vec<char>) -> (r: bool)
    ensures
        r == lex_lt(a@, b@),
{
    let mut i: usize = 0;
    while i < a.len() && i < b.len() && a[i] == b[i]
        invariant
            i <= a.len(),
            i <= b.len(),
            forall|k: int| 0 <= k < i ==> a@[k] == b@[k],
        decreases a.len() - i,
    {
        i += 1;
    }
    proof {
        lemma_lex_skip(a@, b@, i as int);
        if i < a.len() && i < b.len() {
            assert(a@.skip(i as int)[0] == a@[i as int]);
            assert(b@.skip(i as int)[0] == b@[i as int]);
        }
    }
    if i == a.len() {
        i < b.len()
    } else if i == b.len() {
        false
    } else {
        a[i] < b[i]
    }
}

/// Whether two names are equal.
pub fn same_name(a: &Vec<char>, b: &Vec<char>) -> (r: bool)
    ensures
        r == (a@ == b@),
{
    if a.len() != b.len() {
        return false;
    }
    let mut i: usize = 0;
    while i < a.len()
        invariant
            i <= a.len() == b.len(),
            forall|j: int| 0 <= j < i ==> a@[j] == b@[j],
        decreases a.len() - i,
    {
        if a[i] != b[i] {
            return false;
        }
        i += 1;
    }
    proof {
        assert(a@ =~= b@);
    }
    true
}

pub open spec fn name_views(v: Seq<Vec<char>>) -> Seq<Seq<char>> {
    v.map_values(|n: Vec<char>| n@)
}

/// Adds `name` to a strictly sorted list of names, unless it is there already.
pub fn insert_name(list: &mut Vec<Vec<char>>, name: Vec<char>)
    requires
        strictly_sorted(name_views(old(list)@)),
    ensures
        strictly_sorted(name_views(final(list)@)),
        forall|n: Seq<char>|
            name_views(final(list)@).contains(n) <==> (name_views(old(list)@).contains(n) || n
                == name@),
{
    let ghost old_v = name_views(list@);
    let mut pos: usize = 0;
    while pos < list.len() && lex_less(&list[pos], &name)
        invariant
            pos <= list.len(),
            old_v == name_views(list@),
            list@ == old(list)@,
            forall|k: int| 0 <= k < pos ==> lex_lt(#[trigger] old_v[k], name@),
        decreases list.len() - pos,
    {
        proof {
            assert(old_v[pos as int] == list@[pos as int]@);
        }
        pos += 1;
    }
    if pos < list.len() && same_name(&list[pos], &name) {
        proof {
            assert(old_v[pos as int] == name@);
            assert forall|n: Seq<char>| old_v.contains(n) <==> (old_v.contains(n) || n == name@) by {
                if n == name@ {
                    assert(old_v[pos as int] == n);
                }
            }
        }
        return ;
    }
    let ghost nv = name@;
    proof {
        if pos < list.len() {
            assert(old_v[pos as int] == list@[pos as int]@);
            lemma_lex_total(old_v[pos as int], nv);
            assert(lex_lt(nv, old_v[pos as int]));
        }
    }
    list.insert(pos, name);
    proof {
        let v = name_views(list@);
        assert(v =~= old_v.insert(pos as int, nv));
        assert forall|i: int, j: int| 0 <= i < j < v.len() implies lex_lt(
            #[trigger] v[i],
            #[trigger] v[j],
        ) by {
            if j < pos {
                assert(v[i] == old_v[i]);
                assert(v[j] == old_v[j]);
            } else if j == pos {
                assert(v[i] == old_v[i]);
            } else if i == pos {
                assert(v[j] == old_v[j - 1]);
                if j - 1 > pos {
                    assert(lex_lt(old_v[pos as int], old_v[j - 1]));
                    lemma_lex_transitive(nv, old_v[pos as int], old_v[j - 1]);
                }
            } else if i < pos {
                assert(v[i] == old_v[i]);
                assert(v[j] == old_v[j - 1]);
                assert(lex_lt(old_v[i], nv));
                lemma_lex_transitive(old_v[i], nv, old_v[pos as int]);
                if j - 1 > pos {
                    lemma_lex_transitive(old_v[i], old_v[pos as int], old_v[j - 1]);
                }
            } else {
                assert(v[i] == old_v[i - 1]);
                assert(v[j] == old_v[j - 1]);
            }
        }
        assert forall|n: Seq<char>| v.contains(n) <==> (old_v.contains(n) || n == nv) by {
            if v.contains(n) {
                let k = choose|k: int| 0 <= k < v.len() && v[k] == n;
                if k < pos {
                    assert(old_v[k] == n);
                } else if k > pos {
                    assert(old_v[k - 1] == n);
                }
            }
            if old_v.contains(n) {
                let k = choose|k: int| 0 <= k < old_v.len() && old_v[k] == n;
                if k < pos {
                    assert(v[k] == n);
                } else {
                    assert(v[k + 1] == n);
                }
            }
            if n == nv {
                assert(v[pos as int] == n);
            }
        }
    }
}

} // verus!
