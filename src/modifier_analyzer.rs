//! How often each modifier text occurs across search results.
use vstd::prelude::*;
use crate::item_fetcher::ItemData;

verus! {

/// How many times `n` occurs in `s`.
pub open spec fn occurrences(s: Seq<String>, n: Seq<char>) -> nat
    decreases s.len(),
{
    if s.len() == 0 {
        0
    } else {
        occurrences(s.drop_last(), n) + if s.last()@ == n { 1nat } else { 0nat }
    }
}

/// How many times modifier text `n` occurs over the items that list modifiers.
pub open spec fn text_count(items: Seq<ItemData>, n: Seq<char>) -> nat
    decreases items.len(),
{
    if items.len() == 0 {
        0
    } else {
        text_count(items.drop_last(), n) + match items.last().explicit_mods {
            Some(m) => occurrences(m@, n),
            None => 0,
        }
    }
}

/// How many items list modifiers at all.
pub open spec fn items_with_mods(items: Seq<ItemData>) -> nat
    decreases items.len(),
{
    if items.len() == 0 {
        0
    } else {
        items_with_mods(items.drop_last()) + if items.last().explicit_mods is Some { 1nat } else { 0nat }
    }
}

/// The count recorded for `n` in a table of texts and counts.
pub open spec fn table_count(t: Seq<(String, u128)>, n: Seq<char>) -> nat
    decreases t.len(),
{
    if t.len() == 0 {
        0
    } else {
        table_count(t.drop_last(), n) + if t.last().0@ == n { t.last().1 as nat } else { 0nat }
    }
}

pub open spec fn texts_unique(t: Seq<(String, u128)>) -> bool {
    forall|i: int, j: int| 0 <= i < j < t.len() ==> #[trigger] t[i].0@ != #[trigger] t[j].0@
}

/// Each modifier text seen, once, with how many times it occurred, and how many
/// items listed modifiers.
#[derive(Debug, Clone)]
pub struct ModifierFrequencies {
    pub counts: Vec<(String, u128)>,
    pub items_with_modifiers: usize,
}

proof fn lemma_table_absent(t: Seq<(String, u128)>, n: Seq<char>)
    requires
        forall|k: int| 0 <= k < t.len() ==> #[trigger] t[k].0@ != n,
    ensures
        table_count(t, n) == 0,
    decreases t.len(),
{
    if t.len() > 0 {
        let s = t.drop_last();
        assert forall|k: int| 0 <= k < s.len() implies #[trigger] s[k].0@ != n by {
            assert(s[k] == t[k]);
        }
        lemma_table_absent(s, n);
        assert(t.last() == t[t.len() - 1]);
    }
}

proof fn lemma_table_at(t: Seq<(String, u128)>, i: int)
    requires
        texts_unique(t),
        0 <= i < t.len(),
    ensures
        table_count(t, t[i].0@) == t[i].1,
    decreases t.len(),
{
    let s = t.drop_last();
    let n = t[i].0@;
    if i == t.len() - 1 {
        assert forall|k: int| 0 <= k < s.len() implies #[trigger] s[k].0@ != n by {
            assert(s[k] == t[k]);
        }
        lemma_table_absent(s, n);
    } else {
        assert(texts_unique(s)) by {
            assert forall|x: int, y: int| 0 <= x < y < s.len() implies #[trigger] s[x].0@ != #[trigger] s[y].0@ by {
                assert(s[x] == t[x] && s[y] == t[y]);
            }
        }
        assert(s[i] == t[i]);
        lemma_table_at(s, i);
        assert(t.last() == t[t.len() - 1]);
    }
}

proof fn lemma_table_update(t: Seq<(String, u128)>, i: int, e: (String, u128), n: Seq<char>)
    requires
        0 <= i < t.len(),
        e.0@ == t[i].0@,
    ensures
        table_count(t.update(i, e), n) + (if t[i].0@ == n { t[i].1 as nat } else { 0nat }) == table_count(t, n)
            + (if e.0@ == n { e.1 as nat } else { 0nat }),
    decreases t.len(),
{
    let u = t.update(i, e);
    if i == t.len() - 1 {
        assert(u.drop_last() =~= t.drop_last());
    } else {
        assert(u.drop_last() =~= t.drop_last().update(i, e));
        lemma_table_update(t.drop_last(), i, e, n);
    }
}

/// Adds one occurrence of `text` to the table.
fn count_text(t: &mut Vec<(String, u128)>, text: &String)
    requires
        texts_unique(old(t)@),
        table_count(old(t)@, text@) < u128::MAX,
    ensures
        texts_unique(final(t)@),
        forall|n: Seq<char>| #[trigger] table_count(final(t)@, n) == table_count(old(t)@, n) + if n == text@ {
            1nat
        } else {
            0nat
        },
{
    let ghost start = t@;
    let mut i: usize = 0;
    while i < t.len() && t[i].0 != *text
        invariant
            i <= t@.len(),
            t@ == start,
            forall|k: int| 0 <= k < i ==> #[trigger] start[k].0@ != text@,
        decreases t@.len() - i,
    {
        i = i + 1;
    }
    if i == t.len() {
        t.push((text.clone(), 1));
        proof {
            let u = t@;
            assert(u.drop_last() =~= start);
            assert forall|x: int, y: int| 0 <= x < y < u.len() implies #[trigger] u[x].0@ != #[trigger] u[y].0@ by {
                if y == u.len() - 1 {
                    assert(u[x] == start[x]);
                } else {
                    assert(u[x] == start[x] && u[y] == start[y]);
                }
            }
        }
    } else {
        proof {
            lemma_table_at(start, i as int);
        }
        let c = t[i].1;
        t[i].1 = c + 1;
        proof {
            let u = t@;
            assert(u =~= start.update(i as int, u[i as int]));
            assert forall|x: int, y: int| 0 <= x < y < u.len() implies #[trigger] u[x].0@ != #[trigger] u[y].0@ by {
                assert(x != i ==> u[x] == start[x]);
                assert(y != i ==> u[y] == start[y]);
            }
            assert forall|n: Seq<char>| #[trigger] table_count(u, n) == table_count(start, n) + if n == text@ {
                1nat
            } else {
                0nat
            } by {
                lemma_table_update(start, i as int, u[i as int], n);
            }
        }
    }
}

/// Counts every modifier text over the items; items without a modifier list are
/// left out of both the counts and the number of items.
pub fn count_modifiers(items: &Vec<ItemData>) -> (r: ModifierFrequencies)
    ensures
        texts_unique(r.counts@),
        forall|n: Seq<char>| #[trigger] table_count(r.counts@, n) == text_count(items@, n),
        r.items_with_modifiers == items_with_mods(items@),
{
    let mut counts: Vec<(String, u128)> = Vec::new();
    let mut with_mods: usize = 0;
    let mut i: usize = 0;
    let ghost mut seen: nat = 0;
    let total = items.len();
    while i < items.len()
        invariant
            i <= items@.len(),
            total == items@.len(),
            texts_unique(counts@),
            forall|n: Seq<char>| #[trigger] table_count(counts@, n) <= seen,
            seen <= i * (usize::MAX as nat),
            forall|n: Seq<char>| #[trigger] table_count(counts@, n) == text_count(items@.take(i as int), n),
            with_mods == items_with_mods(items@.take(i as int)),
            with_mods <= i,
        decreases items@.len() - i,
    {
        let ghost prefix = items@.take(i as int + 1);
        assert(prefix.drop_last() =~= items@.take(i as int));
        assert(prefix.last() == items@[i as int]);
        match &items[i].explicit_mods {
            Some(mods) => {
                let mut k: usize = 0;
                while k < mods.len()
                    invariant
                        k <= mods@.len(),
                        i < items@.len(),
                        total == items@.len(),
                        items@[i as int].explicit_mods == Some(*mods),
                        texts_unique(counts@),
                        forall|n: Seq<char>| #[trigger] table_count(counts@, n) == text_count(items@.take(i as int), n)
                            + occurrences(mods@.take(k as int), n),
                        forall|n: Seq<char>| #[trigger] table_count(counts@, n) <= seen + k,
                        seen <= i * (usize::MAX as nat),
                    decreases mods@.len() - k,
                {
                    proof {
                        assert(mods@.take(k as int + 1).drop_last() =~= mods@.take(k as int));
                        assert(mods@.take(k as int + 1).last() == mods@[k as int]);
                        let n = mods@[k as int]@;
                        assert(seen + k < (i + 1) * (usize::MAX as nat)) by (nonlinear_arith)
                            requires
                                seen <= i * (usize::MAX as nat),
                                k < usize::MAX,
                        ;
                        assert((i + 1) * (usize::MAX as nat) <= (usize::MAX as nat) * (usize::MAX as nat)) by (nonlinear_arith)
                            requires
                                i < usize::MAX,
                        ;
                        assert((usize::MAX as nat) * (usize::MAX as nat) < u128::MAX) by (nonlinear_arith)
                            requires
                                usize::MAX <= u64::MAX,
                        ;
                    }
                    count_text(&mut counts, &mods[k]);
                    k = k + 1;
                }
                assert(mods@.take(k as int) =~= mods@);
                proof {
                    seen = seen + k as nat;
                    assert(seen <= (i + 1) * (usize::MAX as nat)) by (nonlinear_arith)
                        requires
                            seen <= i * (usize::MAX as nat) + k,
                            k <= usize::MAX,
                    ;
                }
                with_mods = with_mods + 1;
            },
            None => {
                assert(seen <= (i + 1) * (usize::MAX as nat)) by (nonlinear_arith)
                    requires
                        seen <= i * (usize::MAX as nat),
                ;
            },
        }
        i = i + 1;
    }
    assert(items@.take(i as int) =~= items@);
    ModifierFrequencies { counts, items_with_modifiers: with_mods }
}

} // verus!
