//! Ranking and selection: the display order of frequency entries (count
//! descending, ties broken by token text ascending for reproducible
//! output), truncation to the top N, the distinct empty-result signal,
//! and the optional availability filter.

use vstd::prelude::*;
use vstd::relations::{sorted_by, total_ordering, reflexive, antisymmetric, transitive,
    strongly_connected};
use vstd::seq_lib::lemma_sorted_unique;
use crate::text::chars_of;

verus! {

/// Lexicographic order on token text: characters compare by Unicode
/// scalar value.
pub open spec fn lex_le(a: Seq<char>, b: Seq<char>) -> bool
    decreases a.len(),
{
    if a.len() == 0 {
        true
    } else if b.len() == 0 {
        false
    } else if (a[0] as u32) != (b[0] as u32) {
        (a[0] as u32) < (b[0] as u32)
    } else {
        lex_le(a.drop_first(), b.drop_first())
    }
}

pub proof fn lemma_lex_le_refl(a: Seq<char>)
    ensures
        lex_le(a, a),
    decreases a.len(),
{
    if a.len() > 0 {
        lemma_lex_le_refl(a.drop_first());
    }
}

pub proof fn lemma_lex_le_total(a: Seq<char>, b: Seq<char>)
    ensures
        lex_le(a, b) || lex_le(b, a),
    decreases a.len(),
{
    if a.len() > 0 && b.len() > 0 && (a[0] as u32) == (b[0] as u32) {
        lemma_lex_le_total(a.drop_first(), b.drop_first());
    }
}

pub proof fn lemma_lex_le_antisym(a: Seq<char>, b: Seq<char>)
    requires
        lex_le(a, b),
        lex_le(b, a),
    ensures
        a == b,
    decreases a.len(),
{
    if a.len() == 0 {
        assert(b.len() == 0);
        assert(a =~= b);
    } else {
        assert(b.len() > 0);
        assert((a[0] as u32) == (b[0] as u32));
        vstd::utf8::char_u32_cast(a[0], a[0] as u32);
        vstd::utf8::char_u32_cast(b[0], b[0] as u32);
        assert(a[0] == b[0]);
        lemma_lex_le_antisym(a.drop_first(), b.drop_first());
        assert(a =~= b) by {
            assert(a.len() == b.len());
            assert(forall|i: int|
                1 <= i < a.len() ==> a[i] == a.drop_first()[i - 1] && b[i] == b.drop_first()[i
                    - 1]);
        }
    }
}

pub proof fn lemma_lex_le_trans(a: Seq<char>, b: Seq<char>, c: Seq<char>)
    requires
        lex_le(a, b),
        lex_le(b, c),
    ensures
        lex_le(a, c),
    decreases a.len(),
{
    if a.len() == 0 {
    } else {
        assert(b.len() > 0);
        assert(c.len() > 0);
        if (a[0] as u32) == (b[0] as u32) && (b[0] as u32) == (c[0] as u32) {
            lemma_lex_le_trans(a.drop_first(), b.drop_first(), c.drop_first());
        }
    }
}

/// A frequency entry at the model level: token text and count.
pub open spec fn entry_view(p: (String, usize)) -> (Seq<char>, int) {
    (p.0@, p.1 as int)
}

/// The models of a sequence of frequency entries.
pub open spec fn views_of(s: Seq<(String, usize)>) -> Seq<(Seq<char>, int)> {
    s.map_values(|p: (String, usize)| entry_view(p))
}

/// Display order on entries: higher count first; among equal counts,
/// token text ascending.
pub open spec fn entry_le(a: (Seq<char>, int), b: (Seq<char>, int)) -> bool {
    b.1 < a.1 || (a.1 == b.1 && lex_le(a.0, b.0))
}

/// The display order as a relation value, for the sorting library.
pub open spec fn entry_order() -> spec_fn((Seq<char>, int), (Seq<char>, int)) -> bool {
    |a: (Seq<char>, int), b: (Seq<char>, int)| entry_le(a, b)
}

pub proof fn lemma_entry_order_total()
    ensures
        total_ordering(entry_order()),
{
    let r = entry_order();
    assert(reflexive(r)) by {
        assert forall|x: (Seq<char>, int)| #[trigger] r(x, x) by {
            lemma_lex_le_refl(x.0);
        }
    }
    assert(antisymmetric(r)) by {
        assert forall|x: (Seq<char>, int), y: (Seq<char>, int)|
            #[trigger] r(x, y) && #[trigger] r(y, x) implies x == y by {
            if x.1 == y.1 {
                lemma_lex_le_antisym(x.0, y.0);
            }
        }
    }
    assert(transitive(r)) by {
        assert forall|x: (Seq<char>, int), y: (Seq<char>, int), z: (Seq<char>, int)|
            #[trigger] r(x, y) && #[trigger] r(y, z) implies r(x, z) by {
            if x.1 == y.1 && y.1 == z.1 {
                lemma_lex_le_trans(x.0, y.0, z.0);
            }
        }
    }
    assert(strongly_connected(r)) by {
        assert forall|x: (Seq<char>, int), y: (Seq<char>, int)| #[trigger] r(x, y) || #[trigger] r(
            y,
            x,
        ) by {
            if x.1 == y.1 {
                lemma_lex_le_total(x.0, y.0);
            }
        }
    }
}

fn entry_precedes(a: &(String, usize), b: &(String, usize)) -> (r: bool)
    ensures
        r == entry_le(entry_view(*a), entry_view(*b)),
{
    if b.1 < a.1 {
        true
    } else if a.1 < b.1 {
        false
    } else {
        let av = chars_of(a.0.as_str());
        let bv = chars_of(b.0.as_str());
        let mut i: usize = 0;
        proof {
            assert(av@.skip(0) =~= av@);
            assert(bv@.skip(0) =~= bv@);
        }
        while i < av.len() && i < bv.len()
            invariant
                0 <= i <= av.len(),
                0 <= i <= bv.len(),
                av@ == a.0@,
                bv@ == b.0@,
                a.1 == b.1,
                lex_le(av@, bv@) == lex_le(av@.skip(i as int), bv@.skip(i as int)),
            decreases av.len() - i,
        {
            proof {
                assert(av@.skip(i as int)[0] == av@[i as int]);
                assert(bv@.skip(i as int)[0] == bv@[i as int]);
                assert(av@.skip(i as int).drop_first() =~= av@.skip(i as int + 1));
                assert(bv@.skip(i as int).drop_first() =~= bv@.skip(i as int + 1));
            }
            let au = av[i] as u32;
            let bu = bv[i] as u32;
            if au != bu {
                proof {
                    assert(lex_le(av@.skip(i as int), bv@.skip(i as int)) == ((av@[i as int] as u32)
                        < (bv@[i as int] as u32)));
                }
                return au < bu;
            }
            i = i + 1;
        }
        proof {
            if i == av.len() {
                assert(av@.skip(i as int) =~= Seq::<char>::empty());
            } else {
                assert(bv@.skip(i as int) =~= Seq::<char>::empty());
                assert(av@.skip(i as int).len() > 0);
            }
        }
        av.len() <= bv.len()
    }
}

fn find_insert_pos(v: &Vec<(String, usize)>, x: &(String, usize), i: usize) -> (j: usize)
    requires
        i <= v.len(),
    ensures
        j <= i,
        forall|k: int| 0 <= k < j ==> entry_le(#[trigger] views_of(v@)[k], entry_view(*x)),
        j < i ==> !entry_le(entry_view(v@[j as int]), entry_view(*x)),
{
    let mut j: usize = 0;
    while j < i
        invariant
            0 <= j <= i <= v.len(),
            forall|k: int| 0 <= k < j ==> entry_le(#[trigger] views_of(v@)[k], entry_view(*x)),
        decreases i - j,
    {
        if !entry_precedes(&v[j], x) {
            return j;
        }
        proof {
            assert(views_of(v@)[j as int] == entry_view(v@[j as int]));
        }
        j = j + 1;
    }
    j
}

/// Sorts a frequency table into display order: count descending, equal
/// counts by token text ascending. The result is exactly the library
/// sort of the table's model under that order.
pub fn sort_entries(v: &mut Vec<(String, usize)>)
    ensures
        views_of(final(v)@) == views_of(old(v)@).sort_by(entry_order()),
{
    let ghost orig = v@;
    let ghost ord = entry_order();
    proof {
        broadcast use vstd::seq_lib::group_to_multiset_ensures;
        broadcast use vstd::multiset::group_multiset_axioms;

        lemma_entry_order_total();
    }
    let mut i: usize = 1;
    while i < v.len()
        invariant
            1 <= i,
            v@.len() == orig.len(),
            ord == entry_order(),
            i <= v@.len() || v@.len() == 0,
            sorted_by(
                views_of(v@).take(if i as int <= v@.len() { i as int } else { v@.len() as int }),
                ord,
            ),
            views_of(v@).to_multiset() == views_of(orig).to_multiset(),
        decreases v.len() - i,
    {
        proof {
            broadcast use vstd::seq_lib::group_to_multiset_ensures;
            broadcast use vstd::multiset::group_multiset_axioms;

            lemma_entry_order_total();
        }
        let ghost s = v@;
        let x = v.remove(i);
        let j = find_insert_pos(&v, &x, i);
        v.insert(j, x);
        proof {
            broadcast use vstd::seq_lib::group_to_multiset_ensures;
            broadcast use vstd::multiset::group_multiset_axioms;

            lemma_entry_order_total();
            let sv = views_of(s);
            let xv = entry_view(x);
            assert(v@ =~= s.remove(i as int).insert(j as int, x));
            // the multiset of models is unchanged by moving one element
            assert(views_of(s.remove(i as int)) =~= sv.remove(i as int));
            assert(views_of(v@) =~= sv.remove(i as int).insert(j as int, xv));
            assert(sv.remove(i as int).to_multiset() == sv.to_multiset().remove(xv));
            let t = sv.remove(i as int).insert(j as int, xv);
            assert(t.remove(j as int) =~= sv.remove(i as int));
            assert(t[j as int] == xv);
            assert(t.remove(j as int).to_multiset() == t.to_multiset().remove(xv));
            assert(t.to_multiset().count(xv) > 0) by {
                assert(t.contains(xv));
            }
            assert(t.to_multiset() =~= t.to_multiset().remove(xv).insert(xv));
            assert(sv.to_multiset().count(xv) > 0) by {
                assert(sv[i as int] == xv);
                assert(sv.contains(xv));
            }
            assert(sv.to_multiset() =~= sv.to_multiset().remove(xv).insert(xv));
            assert(t.to_multiset() == sv.to_multiset());
            // the sorted prefix grew by one, at position j
            let pre = views_of(s).take(i as int);
            let post = views_of(v@).take(i as int + 1);
            assert(forall|k: int| 0 <= k < j ==> post[k] == #[trigger] pre[k]);
            assert(post[j as int] == xv);
            assert(forall|k: int| j < k < i + 1 ==> post[k] == #[trigger] pre[k - 1]);
            if (j as int) < i {
                // x goes before the entry it displaced
                assert(entry_le(xv, pre[j as int])) by {
                    assert(views_of(s.remove(i as int))[j as int] == pre[j as int]);
                    assert(!entry_le(pre[j as int], xv));
                    assert(strongly_connected(ord));
                    assert(ord(xv, pre[j as int]) || ord(pre[j as int], xv));
                }
            }
            assert(sorted_by(post, ord)) by {
                assert forall|a: int, b: int| 0 <= a < b < post.len() implies #[trigger] ord(
                    post[a],
                    post[b],
                ) by {
                    assert(transitive(ord));
                    if b < j {
                        assert(ord(pre[a], pre[b]));
                    } else if b == j {
                        assert(ord(pre[a], xv)) by {
                            assert(views_of(s.remove(i as int))[a] == pre[a]);
                        }
                    } else if a < j {
                        if (j as int) < i {
                            assert(ord(xv, pre[j as int]));
                            if b - 1 == j {
                                assert(ord(pre[a], post[b])) by {
                                    assert(ord(pre[a], xv));
                                    assert(ord(xv, pre[j as int]));
                                }
                            } else {
                                assert(ord(pre[j as int], pre[b - 1]));
                            }
                        }
                        assert(ord(pre[a], xv)) by {
                            assert(views_of(s.remove(i as int))[a] == pre[a]);
                        }
                        assert(ord(xv, pre[b - 1]));
                        assert(ord(post[a], post[b]));
                    } else if a == j {
                        assert(ord(xv, pre[j as int]));
                        if b - 1 == j {
                        } else {
                            assert(ord(pre[j as int], pre[b - 1]));
                        }
                        assert(ord(xv, pre[b - 1]));
                    } else {
                        assert(ord(pre[a - 1], pre[b - 1]));
                    }
                }
            }
        }
        i = i + 1;
    }
    proof {
        broadcast use vstd::seq_lib::group_to_multiset_ensures;

        lemma_entry_order_total();
        if v@.len() == 0 {
            assert(views_of(v@) =~= views_of(orig).sort_by(entry_order())) by {
                views_of(orig).lemma_sort_by_ensures(entry_order());
                assert(views_of(orig).to_multiset().len() == 0);
                assert(views_of(orig).sort_by(entry_order()).to_multiset().len() == 0);
            }
        } else {
            assert(views_of(v@).take(v@.len() as int) =~= views_of(v@));
            views_of(orig).lemma_sort_by_ensures(entry_order());
            lemma_sorted_unique(
                views_of(v@),
                views_of(orig).sort_by(entry_order()),
                entry_order(),
            );
        }
    }
}

/// The displayed ranking of a table's model: sorted into display order,
/// then cut to the first `n` entries.
pub open spec fn ranked_spec(entries: Seq<(Seq<char>, int)>, n: int) -> Seq<(Seq<char>, int)> {
    let sorted = entries.sort_by(entry_order());
    if n <= sorted.len() {
        sorted.take(n)
    } else {
        sorted
    }
}

/// The outcome of ranking: the distinct empty-result signal, or the
/// entries to display.
pub enum Ranking {
    Empty,
    Top(Vec<(String, usize)>),
}

/// Ranks a frequency table for display: sorts by count descending (ties
/// by token ascending) and keeps the first `n` entries. An empty table
/// yields the distinct `Empty` signal, never an empty chart.
pub fn rank(table: Vec<(String, usize)>, n: usize) -> (r: Ranking)
    ensures
        (r is Empty) <==> table@.len() == 0,
        r matches Ranking::Top(v) ==> views_of(v@) == ranked_spec(views_of(table@), n as int),
{
    if table.len() == 0 {
        return Ranking::Empty;
    }
    let mut t = table;
    let ghost orig = t@;
    sort_entries(&mut t);
    let ghost sorted = views_of(orig).sort_by(entry_order());
    proof {
        lemma_entry_order_total();
        views_of(orig).lemma_sort_by_ensures(entry_order());
        broadcast use vstd::seq_lib::group_to_multiset_ensures;

        assert(views_of(t@).len() == sorted.len());
        assert(t@.len() == views_of(t@).len());
    }
    let ghost before = t@;
    t.truncate(n);
    proof {
        if n <= before.len() {
            assert(t@ == before.subrange(0, n as int));
            assert(views_of(t@) =~= views_of(before).take(n as int));
        } else {
            assert(views_of(t@) == sorted);
        }
    }
    Ranking::Top(t)
}

/// The entries whose mark equals `keep`, in their original order, counts
/// untouched.
pub open spec fn filtered_spec(
    entries: Seq<(Seq<char>, int)>,
    marks: Seq<bool>,
    keep: bool,
) -> Seq<(Seq<char>, int)>
    decreases entries.len(),
{
    if entries.len() == 0 {
        Seq::empty()
    } else {
        let rest = filtered_spec(entries.drop_first(), marks.drop_first(), keep);
        if marks.len() > 0 && marks[0] == keep {
            seq![entries[0]] + rest
        } else {
            rest
        }
    }
}

/// Narrows a table by an availability verdict given per entry: with
/// `keep_marked` true only the entries marked true stay (keep-satisfying
/// mode), with it false only those marked false (keep-failing mode).
/// Order and counts are preserved; nothing is re-sorted.
pub fn filter_entries(entries: &Vec<(String, usize)>, marks: &Vec<bool>, keep_marked: bool) -> (r:
    Vec<(String, usize)>)
    requires
        marks@.len() == entries@.len(),
    ensures
        views_of(r@) == filtered_spec(views_of(entries@), marks@, keep_marked),
{
    let mut r: Vec<(String, usize)> = Vec::new();
    let mut i: usize = 0;
    proof {
        assert(views_of(entries@).skip(0) =~= views_of(entries@));
        assert(marks@.skip(0) =~= marks@);
        assert(views_of(r@) + filtered_spec(views_of(entries@), marks@, keep_marked)
            =~= filtered_spec(views_of(entries@), marks@, keep_marked));
    }
    while i < entries.len()
        invariant
            0 <= i <= entries.len(),
            marks@.len() == entries@.len(),
            views_of(r@) + filtered_spec(
                views_of(entries@).skip(i as int),
                marks@.skip(i as int),
                keep_marked,
            ) == filtered_spec(views_of(entries@), marks@, keep_marked),
        decreases entries.len() - i,
    {
        let ghost esuf = views_of(entries@).skip(i as int);
        let ghost msuf = marks@.skip(i as int);
        proof {
            assert(esuf[0] == views_of(entries@)[i as int]);
            assert(views_of(entries@)[i as int] == entry_view(entries@[i as int]));
            assert(msuf[0] == marks@[i as int]);
            assert(esuf.drop_first() =~= views_of(entries@).skip(i as int + 1));
            assert(msuf.drop_first() =~= marks@.skip(i as int + 1));
        }
        if marks[i] == keep_marked {
            let e = (entries[i].0.clone(), entries[i].1);
            proof {
                let rest = filtered_spec(
                    views_of(entries@).skip(i as int + 1),
                    marks@.skip(i as int + 1),
                    keep_marked,
                );
                assert(filtered_spec(esuf, msuf, keep_marked) == seq![entry_view(
                    entries@[i as int],
                )] + rest);
                assert(views_of(r@.push(e)) =~= views_of(r@) + seq![entry_view(e)]);
                assert(entry_view(e) == entry_view(entries@[i as int]));
                assert(views_of(r@) + (seq![entry_view(e)] + rest) =~= (views_of(r@) + seq![
                    entry_view(e),
                ]) + rest);
            }
            r.push(e);
        } else {
            proof {
                assert(filtered_spec(esuf, msuf, keep_marked) == filtered_spec(
                    views_of(entries@).skip(i as int + 1),
                    marks@.skip(i as int + 1),
                    keep_marked,
                ));
            }
        }
        i = i + 1;
    }
    proof {
        assert(views_of(entries@).skip(entries.len() as int) =~= Seq::<(Seq<char>, int)>::empty());
        assert(views_of(r@) + Seq::<(Seq<char>, int)>::empty() =~= views_of(r@));
    }
    r
}

} // verus!
