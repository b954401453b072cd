//! The order of texts, sorted lists and sorted sets of texts.

use vstd::prelude::*;

use crate::text::{chars_of, contains_text, texts};

verus! {

/// `a` comes before `b`: by the first character that differs, the shorter
/// first when one is the beginning of the other.
pub open spec fn before(a: Seq<char>, b: Seq<char>) -> bool
    decreases a.len(),
{
    if b.len() == 0 {
        false
    } else if a.len() == 0 {
        true
    } else if a[0] != b[0] {
        a[0] < b[0]
    } else {
        before(a.skip(1), b.skip(1))
    }
}

/// No text comes before itself.
pub proof fn lemma_before_irreflexive(a: Seq<char>)
    ensures
        !before(a, a),
    decreases a.len(),
{
    if a.len() > 0 {
        lemma_before_irreflexive(a.skip(1));
    }
}

/// Of two texts that begin with texts of one length, the beginnings decide
/// where they differ.
pub proof fn lemma_before_front(a: Seq<char>, b: Seq<char>, p: Seq<char>, q: Seq<char>)
    requires
        a.len() == b.len(),
        before(a, b),
    ensures
        before(a + p, b + q),
    decreases a.len(),
{
    if a[0] == b[0] {
        lemma_before_front(a.skip(1), b.skip(1), p, q);
        assert((a + p).skip(1) =~= a.skip(1) + p);
        assert((b + q).skip(1) =~= b.skip(1) + q);
    }
}

/// Of two texts that begin alike, what follows decides.
pub proof fn lemma_before_behind(a: Seq<char>, p: Seq<char>, q: Seq<char>)
    requires
        before(p, q),
    ensures
        before(a + p, a + q),
    decreases a.len(),
{
    if a.len() == 0 {
        assert(a + p =~= p && a + q =~= q);
    } else {
        lemma_before_behind(a.skip(1), p, q);
        assert((a + p).skip(1) =~= a.skip(1) + p);
        assert((a + q).skip(1) =~= a.skip(1) + q);
    }
}

/// `before` is transitive.
pub proof fn lemma_before_transitive(a: Seq<char>, b: Seq<char>, c: Seq<char>)
    requires
        before(a, b),
        before(b, c),
    ensures
        before(a, c),
    decreases a.len(),
{
    if a.len() > 0 && a[0] == b[0] && b[0] == c[0] {
        lemma_before_transitive(a.skip(1), b.skip(1), c.skip(1));
    }
}

/// Of two different texts one comes before the other.
pub proof fn lemma_before_total(a: Seq<char>, b: Seq<char>)
    ensures
        a == b || before(a, b) || before(b, a),
    decreases a.len(),
{
    if a.len() > 0 && b.len() > 0 {
        if a[0] == b[0] {
            lemma_before_total(a.skip(1), b.skip(1));
            if a.skip(1) == b.skip(1) {
                assert(a =~= seq![a[0]] + a.skip(1));
                assert(b =~= seq![b[0]] + b.skip(1));
            }
        }
    } else {
        assert(a.len() == 0 && b.len() == 0 ==> a =~= b);
    }
}

/// Two texts never come before each other.
pub proof fn lemma_before_asymmetric(a: Seq<char>, b: Seq<char>)
    requires
        before(a, b),
    ensures
        !before(b, a),
        a != b,
{
    lemma_before_irreflexive(a);
    if before(b, a) {
        lemma_before_transitive(a, b, a);
    }
}

/// Whether `a` comes before `b`.
pub fn comes_before(a: &str, b: &str) -> (r: bool)
    ensures
        r == before(a@, b@),
{
    let x = chars_of(a);
    let y = chars_of(b);
    let mut i: usize = 0;
    assert(x@.skip(0) == x@);
    assert(y@.skip(0) == y@);
    loop
        invariant
            x@ == a@,
            y@ == b@,
            i <= x@.len(),
            i <= y@.len(),
            before(x@, y@) == before(x@.skip(i as int), y@.skip(i as int)),
        decreases x@.len() - i,
    {
        if i >= y.len() {
            return false;
        }
        if i >= x.len() {
            return true;
        }
        if x[i] != y[i] {
            return x[i] < y[i];
        }
        assert(x@.skip(i as int).skip(1) == x@.skip(i + 1));
        assert(y@.skip(i as int).skip(1) == y@.skip(i + 1));
        i = i + 1;
    }
}

/// Every text of the list comes before, or is the same as, each later one.
pub open spec fn ascending(list: Seq<Seq<char>>) -> bool {
    forall|i: int, j: int|
        0 <= i < j < list.len() ==> !before(#[trigger] list[j], #[trigger] list[i])
}

/// Every text of the list comes before each later one.
pub open spec fn strictly_ascending(list: Seq<Seq<char>>) -> bool {
    forall|i: int, j: int|
        0 <= i < j < list.len() ==> before(#[trigger] list[i], #[trigger] list[j])
}

/// `list` with `x` put before the texts at its end that come after `x`.
pub open spec fn insert_sorted(list: Seq<Seq<char>>, x: Seq<char>) -> Seq<Seq<char>>
    decreases list.len(),
{
    if list.len() > 0 && before(x, list.last()) {
        insert_sorted(list.drop_last(), x).push(list.last())
    } else {
        list.push(x)
    }
}

/// The texts of `list`, each as often as it stands there, in order.
pub open spec fn sorted(list: Seq<Seq<char>>) -> Seq<Seq<char>>
    decreases list.len(),
{
    if list.len() == 0 {
        list
    } else {
        insert_sorted(sorted(list.drop_last()), list.last())
    }
}

/// `list` with `x` at its place, unless it is there already.
pub open spec fn insert_new(list: Seq<Seq<char>>, x: Seq<char>) -> Seq<Seq<char>> {
    if list.contains(x) {
        list
    } else {
        insert_sorted(list, x)
    }
}

/// The texts of `list`, each once, in order.
pub open spec fn sorted_set(list: Seq<Seq<char>>) -> Seq<Seq<char>>
    decreases list.len(),
{
    if list.len() == 0 {
        list
    } else {
        insert_new(sorted_set(list.drop_last()), list.last())
    }
}

/// Inserting keeps an ascending list ascending and adds just `x`.
pub proof fn lemma_insert_sorted(list: Seq<Seq<char>>, x: Seq<char>)
    requires
        ascending(list),
    ensures
        ascending(insert_sorted(list, x)),
        insert_sorted(list, x).to_multiset() == list.to_multiset().insert(x),
        forall|y: Seq<char>| #[trigger]
            insert_sorted(list, x).contains(y) <==> (list.contains(y) || y == x),
    decreases list.len(),
{
    broadcast use vstd::seq_lib::group_to_multiset_ensures;

    let r = insert_sorted(list, x);
    if list.len() > 0 && before(x, list.last()) {
        let front = list.drop_last();
        assert(ascending(front)) by {
            assert forall|i: int, j: int| 0 <= i < j < front.len() implies !before(
                #[trigger] front[j],
                #[trigger] front[i],
            ) by {
                assert(front[i] == list[i] && front[j] == list[j]);
            }
        }
        lemma_insert_sorted(front, x);
        let inner = insert_sorted(front, x);
        assert(list =~= front.push(list.last()));
        assert(r.to_multiset() =~= list.to_multiset().insert(x));
        assert forall|i: int, j: int| 0 <= i < j < r.len() implies !before(
            #[trigger] r[j],
            #[trigger] r[i],
        ) by {
            if j == r.len() - 1 {
                assert(inner.contains(inner[i]));
                assert(front.contains(inner[i]) || inner[i] == x);
                lemma_before_asymmetric(x, list.last());
                if inner[i] != x {
                    let k = choose|k: int| 0 <= k < front.len() && front[k] == inner[i];
                    assert(front[k] == list[k]);
                    assert(!before(list[list.len() - 1], list[k]));
                }
            } else {
                assert(r[i] == inner[i] && r[j] == inner[j]);
            }
        }
        assert forall|y: Seq<char>| #[trigger] r.contains(y) <==> (list.contains(y) || y == x) by {
            assert(r.contains(y) <==> (inner.contains(y) || y == list.last())) by {
                if inner.contains(y) {
                    let k = choose|k: int| 0 <= k < inner.len() && inner[k] == y;
                    assert(r[k] == y);
                }
                if y == list.last() {
                    assert(r[r.len() - 1] == y);
                }
                if r.contains(y) {
                    let k = choose|k: int| 0 <= k < r.len() && r[k] == y;
                    if k < inner.len() {
                        assert(inner[k] == y);
                    }
                }
            }
            assert(list.contains(y) <==> (front.contains(y) || y == list.last())) by {
                if list.contains(y) {
                    let k = choose|k: int| 0 <= k < list.len() && list[k] == y;
                    if k < front.len() {
                        assert(front[k] == y);
                    }
                }
                if front.contains(y) {
                    let k = choose|k: int| 0 <= k < front.len() && front[k] == y;
                    assert(list[k] == y);
                }
                if y == list.last() {
                    assert(list[list.len() - 1] == y);
                }
            }
        }
    } else {
        assert(r.to_multiset() =~= list.to_multiset().insert(x));
        assert forall|i: int, j: int| 0 <= i < j < r.len() implies !before(
            #[trigger] r[j],
            #[trigger] r[i],
        ) by {
            if j == r.len() - 1 {
                if before(x, list[i]) {
                    let l = list.last();
                    lemma_before_total(x, l);
                    if i < list.len() - 1 {
                        lemma_before_total(list[i], l);
                        if x != l {
                            if list[i] == l {
                            } else {
                                lemma_before_transitive(x, list[i], l);
                            }
                        } else {
                            assert(!before(list[list.len() - 1], list[i]));
                        }
                    }
                }
            } else {
                assert(r[i] == list[i] && r[j] == list[j]);
            }
        }
        assert forall|y: Seq<char>| #[trigger] r.contains(y) <==> (list.contains(y) || y == x) by {
            if list.contains(y) {
                let k = choose|k: int| 0 <= k < list.len() && list[k] == y;
                assert(r[k] == y);
            }
            if y == x {
                assert(r[r.len() - 1] == y);
            }
            if r.contains(y) {
                let k = choose|k: int| 0 <= k < r.len() && r[k] == y;
                if k < list.len() {
                    assert(list[k] == y);
                }
            }
        }
    }
}

/// Sorting puts the texts of a list in order and keeps each as often as it
/// stood there.
pub proof fn lemma_sorted(list: Seq<Seq<char>>)
    ensures
        ascending(sorted(list)),
        sorted(list).to_multiset() == list.to_multiset(),
        forall|y: Seq<char>| #[trigger] sorted(list).contains(y) <==> list.contains(y),
    decreases list.len(),
{
    broadcast use vstd::seq_lib::group_to_multiset_ensures;

    if list.len() > 0 {
        lemma_sorted(list.drop_last());
        lemma_insert_sorted(sorted(list.drop_last()), list.last());
        assert(list =~= list.drop_last().push(list.last()));
        assert forall|y: Seq<char>| #[trigger] sorted(list).contains(y) <==> list.contains(y) by {
            lemma_contains_last(list, y);
        }
    }
}

/// An element of a list is its last one or one of those before it.
pub proof fn lemma_contains_last<A>(list: Seq<A>, y: A)
    requires
        list.len() > 0,
    ensures
        list.contains(y) <==> (list.drop_last().contains(y) || y == list.last()),
{
    let front = list.drop_last();
    if list.contains(y) {
        let k = choose|k: int| 0 <= k < list.len() && list[k] == y;
        if k < front.len() {
            assert(front[k] == y);
        }
    }
    if front.contains(y) {
        let k = choose|k: int| 0 <= k < front.len() && front[k] == y;
        assert(list[k] == y);
    }
    if y == list.last() {
        assert(list[list.len() - 1] == y);
    }
}

/// An ascending list without repetitions is strictly ascending.
pub proof fn lemma_ascending_distinct(list: Seq<Seq<char>>)
    requires
        ascending(list),
        list.no_duplicates(),
    ensures
        strictly_ascending(list),
{
    assert forall|i: int, j: int| 0 <= i < j < list.len() implies before(
        #[trigger] list[i],
        #[trigger] list[j],
    ) by {
        lemma_before_total(list[i], list[j]);
    }
}

/// A strictly ascending list is ascending and holds nothing twice.
pub proof fn lemma_strictly_ascending(list: Seq<Seq<char>>)
    requires
        strictly_ascending(list),
    ensures
        ascending(list),
        list.no_duplicates(),
{
    assert forall|i: int, j: int| 0 <= i < j < list.len() implies !before(
        #[trigger] list[j],
        #[trigger] list[i],
    ) && list[i] != list[j] by {
        lemma_before_asymmetric(list[i], list[j]);
    }
}

/// Inserting a text that is not there keeps a strictly ascending list so.
pub proof fn lemma_insert_new(list: Seq<Seq<char>>, x: Seq<char>)
    requires
        strictly_ascending(list),
    ensures
        strictly_ascending(insert_new(list, x)),
        forall|y: Seq<char>| #[trigger]
            insert_new(list, x).contains(y) <==> (list.contains(y) || y == x),
{
    lemma_strictly_ascending(list);
    if !list.contains(x) {
        lemma_insert_sorted(list, x);
        lemma_insert_distinct(list, x);
        lemma_ascending_distinct(insert_sorted(list, x));
    }
}

proof fn lemma_insert_distinct(list: Seq<Seq<char>>, x: Seq<char>)
    requires
        list.no_duplicates(),
        !list.contains(x),
    ensures
        insert_sorted(list, x).no_duplicates(),
        forall|y: Seq<char>| #[trigger]
            insert_sorted(list, x).contains(y) ==> (list.contains(y) || y == x),
    decreases list.len(),
{
    let r = insert_sorted(list, x);
    if list.len() > 0 && before(x, list.last()) {
        let front = list.drop_last();
        lemma_contains_last(list, x);
        lemma_insert_distinct(front, x);
        let inner = insert_sorted(front, x);
        assert forall|y: Seq<char>| #[trigger] r.contains(y) implies (list.contains(y) || y == x) by {
            lemma_contains_last(r, y);
            assert(r.drop_last() =~= inner);
            lemma_contains_last(list, y);
        }
        assert(!inner.contains(list.last())) by {
            if inner.contains(list.last()) {
                assert(front.contains(list.last()) || list.last() == x);
                lemma_before_irreflexive(x);
            }
        }
        assert forall|i: int, j: int| 0 <= i < r.len() && 0 <= j < r.len() && i != j implies r[i]
            != r[j] by {
            if i == inner.len() {
                assert(inner.contains(inner[j]));
            } else if j == inner.len() {
                assert(inner.contains(inner[i]));
            }
        }
    } else {
        assert forall|y: Seq<char>| #[trigger] r.contains(y) implies (list.contains(y) || y == x) by {
            lemma_contains_last(r, y);
            assert(r.drop_last() =~= list);
        }
        assert forall|i: int, j: int| 0 <= i < r.len() && 0 <= j < r.len() && i != j implies r[i]
            != r[j] by {
            if i == list.len() {
                assert(list.contains(list[j]));
            } else if j == list.len() {
                assert(list.contains(list[i]));
            }
        }
    }
}

/// A sorted set holds just the texts of the list, each once and in order.
pub proof fn lemma_sorted_set(list: Seq<Seq<char>>)
    ensures
        strictly_ascending(sorted_set(list)),
        forall|y: Seq<char>| #[trigger] sorted_set(list).contains(y) <==> list.contains(y),
    decreases list.len(),
{
    if list.len() > 0 {
        lemma_sorted_set(list.drop_last());
        lemma_insert_new(sorted_set(list.drop_last()), list.last());
        assert forall|y: Seq<char>| #[trigger] sorted_set(list).contains(y) <==> list.contains(y) by {
            lemma_contains_last(list, y);
        }
    }
}

/// Two strictly ascending lists with the same texts are the same list.
pub proof fn lemma_strictly_ascending_unique(a: Seq<Seq<char>>, b: Seq<Seq<char>>)
    requires
        strictly_ascending(a),
        strictly_ascending(b),
        forall|y: Seq<char>| a.contains(y) <==> #[trigger] b.contains(y),
    ensures
        a == b,
    decreases a.len(),
{
    if a.len() == 0 {
        if b.len() > 0 {
            assert(b.contains(b[0]));
            assert(a.contains(b[0]));
        }
        assert(a =~= b);
    } else {
        assert(a.contains(a.last()));
        assert(b.contains(a.last()));
        assert(b.contains(b.last()));
        assert(a.contains(b.last()));
        lemma_strictly_ascending(a);
        lemma_strictly_ascending(b);
        if a.last() != b.last() {
            let i = choose|i: int| 0 <= i < b.len() && b[i] == a.last();
            let j = choose|j: int| 0 <= j < a.len() && a[j] == b.last();
            assert(before(b[i], b[b.len() - 1]));
            assert(before(a[j], a[a.len() - 1]));
            lemma_before_asymmetric(a.last(), b.last());
        }
        let fa = a.drop_last();
        let fb = b.drop_last();
        assert forall|y: Seq<char>| fa.contains(y) <==> #[trigger] fb.contains(y) by {
            lemma_contains_last(a, y);
            lemma_contains_last(b, y);
            if fa.contains(y) && y == a.last() {
                let k = choose|k: int| 0 <= k < fa.len() && fa[k] == y;
                assert(a[k] == a[a.len() - 1]);
            }
            if fb.contains(y) && y == b.last() {
                let k = choose|k: int| 0 <= k < fb.len() && fb[k] == y;
                assert(b[k] == b[b.len() - 1]);
            }
            assert(a.contains(y) <==> b.contains(y));
        }
        assert(strictly_ascending(fa)) by {
            assert forall|i: int, j: int| 0 <= i < j < fa.len() implies before(
                #[trigger] fa[i],
                #[trigger] fa[j],
            ) by {
                assert(fa[i] == a[i] && fa[j] == a[j]);
            }
        }
        assert(strictly_ascending(fb)) by {
            assert forall|i: int, j: int| 0 <= i < j < fb.len() implies before(
                #[trigger] fb[i],
                #[trigger] fb[j],
            ) by {
                assert(fb[i] == b[i] && fb[j] == b[j]);
            }
        }
        lemma_strictly_ascending_unique(fa, fb);
        assert(a =~= fa.push(a.last()));
        assert(b =~= fb.push(b.last()));
    }
}

/// Puts `x` at its place in `list`.
pub fn insert_text(list: &mut Vec<String>, x: String)
    ensures
        texts(final(list)@) == insert_sorted(texts(old(list)@), x@),
{
    let ghost all = texts(list@);
    let mut p: usize = list.len();
    assert(all.take(p as int) == all);
    assert(insert_sorted(all, x@) + all.skip(p as int) =~= insert_sorted(all, x@));
    while p > 0 && comes_before(x.as_str(), list[p - 1].as_str())
        invariant
            all == texts(list@),
            p <= list@.len(),
            insert_sorted(all, x@) == insert_sorted(all.take(p as int), x@) + all.skip(p as int),
        decreases p,
    {
        let ghost part = all.take(p as int);
        assert(part.drop_last() == all.take(p - 1));
        assert(insert_sorted(all.take(p - 1), x@).push(part.last()) + all.skip(p as int)
            =~= insert_sorted(all.take(p - 1), x@) + all.skip(p - 1));
        p = p - 1;
    }
    let ghost part = all.take(p as int);
    assert(insert_sorted(part, x@) == part.push(x@));
    list.insert(p, x);
    assert(texts(list@) =~= part.push(x@) + all.skip(p as int));
}

/// The texts of `list` in order.
pub fn sort_texts(list: &Vec<String>) -> (r: Vec<String>)
    ensures
        texts(r@) == sorted(texts(list@)),
{
    let mut r: Vec<String> = Vec::new();
    assert(texts(r@) =~= sorted(texts(list@).take(0)));
    for i in 0..list.len()
        invariant
            texts(r@) == sorted(texts(list@).take(i as int)),
    {
        let ghost all = texts(list@);
        assert(all.take(i + 1).drop_last() == all.take(i as int));
        assert(all.take(i + 1).last() == list@[i as int]@);
        insert_text(&mut r, list[i].clone());
    }
    assert(texts(list@).take(list@.len() as int) == texts(list@));
    r
}

/// The texts of `list`, each once, in order.
pub fn sort_set(list: &Vec<String>) -> (r: Vec<String>)
    ensures
        texts(r@) == sorted_set(texts(list@)),
{
    let mut r: Vec<String> = Vec::new();
    assert(texts(r@) =~= sorted_set(texts(list@).take(0)));
    for i in 0..list.len()
        invariant
            texts(r@) == sorted_set(texts(list@).take(i as int)),
    {
        let ghost all = texts(list@);
        assert(all.take(i + 1).drop_last() == all.take(i as int));
        assert(all.take(i + 1).last() == list@[i as int]@);
        if !contains_text(&r, list[i].as_str()) {
            insert_text(&mut r, list[i].clone());
        }
    }
    assert(texts(list@).take(list@.len() as int) == texts(list@));
    r
}

}
