//! The order of a ranking: best first, and among equals as before.
//!
//! A list of records is a ranking of another if it stands in descending
//! order of rank and if, for every rank, the records of that rank are the
//! same in both and stand in the same order. There is exactly one ranking of
//! a list, so records of equal rank never change places from one search to
//! the next.

use vstd::prelude::*;
use crate::emoji::{Emoji, EmojiView};
use crate::index::views;

verus! {

/// No record stands before one of a higher rank.
pub open spec fn descending(list: Seq<EmojiView>) -> bool {
    forall|i: int, j: int| 0 <= i < j < list.len() ==> list[i].rank >= list[j].rank
}

/// The records of one rank, in the order in which they stand in `list`.
pub open spec fn of_rank(list: Seq<EmojiView>, rank: u64) -> Seq<EmojiView> {
    list.filter(|emoji: EmojiView| emoji.rank == rank)
}

/// `after` holds the records of `before`, best first and equals as before.
pub open spec fn is_ranking(before: Seq<EmojiView>, after: Seq<EmojiView>) -> bool {
    &&& after.len() == before.len()
    &&& descending(after)
    &&& forall|rank: u64| #[trigger] of_rank(after, rank) == of_rank(before, rank)
}

/// Every record of a ranking is a record of the list that was ranked.
pub proof fn lemma_ranking_keeps_records(before: Seq<EmojiView>, after: Seq<EmojiView>)
    requires
        is_ranking(before, after),
    ensures
        forall|i: int| 0 <= i < after.len() ==> before.contains(#[trigger] after[i]),
{
    assert forall|i: int| 0 <= i < after.len() implies before.contains(#[trigger] after[i]) by {
        let rank = after[i].rank;
        lemma_of_rank_members(after, rank);
        lemma_of_rank_members(before, rank);
        assert(of_rank(after, rank) == of_rank(before, rank));
        assert(of_rank(after, rank).contains(after[i]));
    }
}

/// The records of a rank in a list of one record.
pub proof fn lemma_of_rank_one(emoji: EmojiView, rank: u64)
    ensures
        of_rank(seq![emoji], rank) == if emoji.rank == rank {
            seq![emoji]
        } else {
            Seq::empty()
        },
{
    let pred = |e: EmojiView| e.rank == rank;
    Seq::<EmojiView>::empty().lemma_filter_push(emoji, pred);
    reveal(Seq::filter);
    assert(Seq::<EmojiView>::empty().push(emoji) =~= seq![emoji]);
    assert(Seq::<EmojiView>::empty().filter(pred) =~= Seq::<EmojiView>::empty());
    assert(Seq::<EmojiView>::empty().push(emoji) =~= seq![emoji]);
}

/// The records of a rank in a list with one record more at its end.
pub proof fn lemma_of_rank_push(list: Seq<EmojiView>, emoji: EmojiView, rank: u64)
    ensures
        of_rank(list.push(emoji), rank) == of_rank(list, rank) + of_rank(seq![emoji], rank),
{
    let pred = |e: EmojiView| e.rank == rank;
    list.lemma_filter_push(emoji, pred);
    lemma_of_rank_one(emoji, rank);
    assert(of_rank(list, rank).push(emoji) =~= of_rank(list, rank) + seq![emoji]);
    assert(of_rank(list, rank) =~= of_rank(list, rank) + Seq::<EmojiView>::empty());
}

/// The records of a rank in what stands from `at` on.
pub proof fn lemma_of_rank_skip(list: Seq<EmojiView>, at: int, rank: u64)
    requires
        0 <= at < list.len(),
    ensures
        of_rank(list.skip(at), rank) == of_rank(seq![list[at]], rank) + of_rank(
            list.skip(at + 1),
            rank,
        ),
{
    let pred = |e: EmojiView| e.rank == rank;
    assert(list.skip(at) =~= seq![list[at]] + list.skip(at + 1));
    Seq::filter_distributes_over_add(seq![list[at]], list.skip(at + 1), pred);
}

/// A list in which no record has a rank holds no records of that rank.
pub proof fn lemma_of_rank_none(list: Seq<EmojiView>, rank: u64)
    requires
        forall|i: int| 0 <= i < list.len() ==> list[i].rank != rank,
    ensures
        of_rank(list, rank) == Seq::<EmojiView>::empty(),
{
    let pred = |e: EmojiView| e.rank == rank;
    assert(list.all(|e: EmojiView| !pred(e)));
    list.lemma_all_neg_filter_empty(pred);
    assert(of_rank(list, rank) =~= Seq::<EmojiView>::empty());
}

/// Every record of a list stands among the records of its rank, and the
/// records of a rank all stand in the list and have that rank.
pub proof fn lemma_of_rank_members(list: Seq<EmojiView>, rank: u64)
    ensures
        forall|i: int|
            0 <= i < list.len() && list[i].rank == rank ==> of_rank(list, rank).contains(
                #[trigger] list[i],
            ),
        forall|k: int|
            0 <= k < of_rank(list, rank).len() ==> (#[trigger] of_rank(list, rank)[k]).rank
                == rank && list.contains(of_rank(list, rank)[k]),
{
    let pred = |e: EmojiView| e.rank == rank;
    assert forall|i: int| 0 <= i < list.len() && list[i].rank == rank implies of_rank(
        list,
        rank,
    ).contains(#[trigger] list[i]) by {
        list.lemma_filter_contains(pred, i);
    }
    assert forall|k: int| 0 <= k < of_rank(list, rank).len() implies (#[trigger] of_rank(
        list,
        rank,
    )[k]).rank == rank && list.contains(of_rank(list, rank)[k]) by {
        list.lemma_filter_pred(pred, k);
        assert(list.filter(pred).contains(list.filter(pred)[k]));
        list.lemma_filter_contains_rev(pred, list.filter(pred)[k]);
    }
}

/// Two descending lists that hold the same records of every rank, in the
/// same order, are one list.
pub proof fn lemma_one_ranking(a: Seq<EmojiView>, b: Seq<EmojiView>)
    requires
        descending(a),
        descending(b),
        forall|rank: u64| #[trigger] of_rank(a, rank) == of_rank(b, rank),
    ensures
        a == b,
    decreases a.len(),
{
    if a.len() == 0 {
        if b.len() > 0 {
            lemma_of_rank_members(b, b[0].rank);
            lemma_of_rank_none(a, b[0].rank);
            assert(of_rank(b, b[0].rank).contains(b[0]));
            assert(of_rank(a, b[0].rank) == of_rank(b, b[0].rank));
        }
        assert(a =~= b);
    } else {
        let top = a[0].rank;
        lemma_of_rank_members(a, top);
        lemma_of_rank_members(b, top);
        assert(of_rank(a, top).contains(a[0]));
        assert(of_rank(a, top) == of_rank(b, top));
        assert(of_rank(b, top).len() > 0);
        let found = of_rank(b, top)[0];
        assert(b.contains(found) && found.rank == top);
        assert(b.len() > 0);
        let other = b[0].rank;
        assert(other >= top) by {
            let k = choose|k: int| 0 <= k < b.len() && b[k] == found;
            if k > 0 {
                assert(b[0].rank >= b[k].rank);
            }
        }
        lemma_of_rank_members(a, other);
        lemma_of_rank_members(b, other);
        assert(of_rank(b, other).contains(b[0]));
        assert(of_rank(a, other) == of_rank(b, other));
        assert(of_rank(a, other).len() > 0);
        let back = of_rank(a, other)[0];
        assert(a.contains(back) && back.rank == other);
        assert(top >= other) by {
            let k = choose|k: int| 0 <= k < a.len() && a[k] == back;
            if k > 0 {
                assert(a[0].rank >= a[k].rank);
            }
        }
        let rest_a = a.skip(1);
        let rest_b = b.skip(1);
        assert forall|rank: u64| #[trigger] of_rank(rest_a, rank) == of_rank(rest_b, rank) && (rank
            == top ==> a[0] == b[0]) by {
            lemma_of_rank_skip(a, 0, rank);
            lemma_of_rank_skip(b, 0, rank);
            lemma_of_rank_one(a[0], rank);
            lemma_of_rank_one(b[0], rank);
            assert(a.skip(0) =~= a);
            assert(b.skip(0) =~= b);
            assert(of_rank(a, rank) == of_rank(b, rank));
            if rank == top {
                let whole_a = seq![a[0]] + of_rank(rest_a, rank);
                let whole_b = seq![b[0]] + of_rank(rest_b, rank);
                assert(whole_a == whole_b);
                assert(whole_a[0] == whole_b[0]);
                assert(whole_a.skip(1) =~= of_rank(rest_a, rank));
                assert(whole_b.skip(1) =~= of_rank(rest_b, rank));
            } else {
                assert(Seq::<EmojiView>::empty() + of_rank(rest_a, rank) =~= of_rank(
                    rest_a,
                    rank,
                ));
                assert(Seq::<EmojiView>::empty() + of_rank(rest_b, rank) =~= of_rank(
                    rest_b,
                    rank,
                ));
            }
        }
        assert(of_rank(rest_a, top) == of_rank(rest_b, top));
        assert(a[0] == b[0]);
        assert(descending(rest_a)) by {
            assert forall|i: int, j: int| 0 <= i < j < rest_a.len() implies rest_a[i].rank
                >= rest_a[j].rank by {
                assert(a[i + 1].rank >= a[j + 1].rank);
            }
        }
        assert(descending(rest_b)) by {
            assert forall|i: int, j: int| 0 <= i < j < rest_b.len() implies rest_b[i].rank
                >= rest_b[j].rank by {
                assert(b[i + 1].rank >= b[j + 1].rank);
            }
        }
        lemma_one_ranking(rest_a, rest_b);
        assert(a =~= seq![a[0]] + rest_a);
        assert(b =~= seq![b[0]] + rest_b);
    }
}

/// A list has one ranking only.
pub proof fn lemma_ranking_unique(before: Seq<EmojiView>, a: Seq<EmojiView>, b: Seq<EmojiView>)
    requires
        is_ranking(before, a),
        is_ranking(before, b),
    ensures
        a == b,
{
    assert forall|rank: u64| #[trigger] of_rank(a, rank) == of_rank(b, rank) by {
        assert(of_rank(a, rank) == of_rank(before, rank));
        assert(of_rank(b, rank) == of_rank(before, rank));
    }
    lemma_one_ranking(a, b);
}

/// A record that holds nothing, to stand where another was taken away: no
/// character, no names, no keywords, no picture, and rank 0.
fn blank() -> (emoji: Emoji)
    ensures
        emoji@ == (EmojiView {
            value: Seq::empty(),
            name: Seq::empty(),
            keywords: Seq::empty(),
            svg: Seq::empty(),
            rank: 0,
        }),
{
    let emoji = Emoji {
        value: String::new(),
        name: Vec::new(),
        keywords: Vec::new(),
        svg: String::new(),
        rank: 0,
    };
    assert(emoji@.name =~= Seq::<(Seq<char>, Seq<char>)>::empty());
    assert(emoji@.keywords =~= Seq::<(Seq<char>, Seq<Seq<char>>)>::empty());
    emoji
}

/// Merges two descending lists into one. Where ranks are equal, the records
/// of `left` come first.
fn merge(left: Vec<Emoji>, right: Vec<Emoji>) -> (out: Vec<Emoji>)
    requires
        descending(views(left@)),
        descending(views(right@)),
    ensures
        out@.len() == left@.len() + right@.len(),
        descending(views(out@)),
        forall|rank: u64| #[trigger]
            of_rank(views(out@), rank) == of_rank(views(left@), rank) + of_rank(
                views(right@),
                rank,
            ),
{
    let ghost l0 = views(left@);
    let ghost r0 = views(right@);
    let mut left = left;
    let mut right = right;
    let mut out: Vec<Emoji> = Vec::new();
    let mut i: usize = 0;
    let mut j: usize = 0;
    proof {
        assert(views(out@) =~= Seq::<EmojiView>::empty());
        assert(l0.skip(0) =~= l0);
        assert(r0.skip(0) =~= r0);
        assert forall|rank: u64| #[trigger]
            of_rank(views(out@), rank) + of_rank(l0.skip(0), rank) + of_rank(r0.skip(0), rank)
                == of_rank(l0, rank) + of_rank(r0, rank) by {
            lemma_of_rank_none(views(out@), rank);
            assert(Seq::<EmojiView>::empty() + of_rank(l0, rank) =~= of_rank(l0, rank));
        }
    }
    while i < left.len() || j < right.len()
        invariant
            left@.len() == l0.len(),
            right@.len() == r0.len(),
            i <= left@.len(),
            j <= right@.len(),
            out@.len() == i + j,
            forall|k: int| i <= k < left@.len() ==> left@[k]@ == l0[k],
            forall|k: int| j <= k < right@.len() ==> right@[k]@ == r0[k],
            descending(l0),
            descending(r0),
            descending(views(out@)),
            forall|k: int|
                0 <= k < out@.len() && i < l0.len() ==> (#[trigger] out@[k])@.rank >= l0[i as int].rank,
            forall|k: int|
                0 <= k < out@.len() && j < r0.len() ==> (#[trigger] out@[k])@.rank >= r0[j as int].rank,
            forall|rank: u64| #[trigger]
                of_rank(views(out@), rank) + of_rank(l0.skip(i as int), rank) + of_rank(
                    r0.skip(j as int),
                    rank,
                ) == of_rank(l0, rank) + of_rank(r0, rank),
        decreases (left@.len() - i) + (right@.len() - j),
    {
        let from_left = if i >= left.len() {
            false
        } else if j >= right.len() {
            true
        } else {
            left[i].rank >= right[j].rank
        };
        let ghost before = views(out@);
        let mut item = blank();
        if from_left {
            core::mem::swap(&mut left[i], &mut item);
            out.push(item);
            proof {
                let taken = l0[i as int];
                assert(views(out@) =~= before.push(taken));
                assert forall|rank: u64| #[trigger]
                    of_rank(views(out@), rank) + of_rank(l0.skip(i as int + 1), rank) + of_rank(
                        r0.skip(j as int),
                        rank,
                    ) == of_rank(l0, rank) + of_rank(r0, rank) by {
                    lemma_of_rank_push(before, taken, rank);
                    lemma_of_rank_skip(l0, i as int, rank);
                    assert(of_rank(before, rank) + of_rank(l0.skip(i as int), rank) + of_rank(
                        r0.skip(j as int),
                        rank,
                    ) == of_rank(l0, rank) + of_rank(r0, rank));
                    assert(of_rank(views(out@), rank) + of_rank(l0.skip(i as int + 1), rank)
                        + of_rank(r0.skip(j as int), rank) =~= of_rank(before, rank) + of_rank(
                        l0.skip(i as int),
                        rank,
                    ) + of_rank(r0.skip(j as int), rank));
                }
                assert forall|k: int|
                    0 <= k < out@.len() && i + 1 < l0.len() implies (#[trigger] out@[k])@.rank
                    >= l0[i as int + 1].rank by {
                    assert(l0[i as int].rank >= l0[i as int + 1].rank);
                }
            }
            i += 1;
        } else {
            core::mem::swap(&mut right[j], &mut item);
            out.push(item);
            proof {
                let taken = r0[j as int];
                assert(views(out@) =~= before.push(taken));
                assert forall|rank: u64| #[trigger]
                    of_rank(views(out@), rank) + of_rank(l0.skip(i as int), rank) + of_rank(
                        r0.skip(j as int + 1),
                        rank,
                    ) == of_rank(l0, rank) + of_rank(r0, rank) by {
                    lemma_of_rank_push(before, taken, rank);
                    lemma_of_rank_skip(r0, j as int, rank);
                    lemma_of_rank_one(taken, rank);
                    assert(of_rank(before, rank) + of_rank(l0.skip(i as int), rank) + of_rank(
                        r0.skip(j as int),
                        rank,
                    ) == of_rank(l0, rank) + of_rank(r0, rank));
                    if rank == taken.rank {
                        assert forall|k: int| 0 <= k < l0.skip(i as int).len() implies l0.skip(
                            i as int,
                        )[k].rank != rank by {
                            if k > 0 {
                                assert(l0[i as int].rank >= l0[i as int + k].rank);
                            }
                        }
                        lemma_of_rank_none(l0.skip(i as int), rank);
                    }
                    assert(of_rank(views(out@), rank) + of_rank(l0.skip(i as int), rank) + of_rank(
                        r0.skip(j as int + 1),
                        rank,
                    ) =~= of_rank(before, rank) + of_rank(l0.skip(i as int), rank) + of_rank(
                        r0.skip(j as int),
                        rank,
                    ));
                }
                assert forall|k: int|
                    0 <= k < out@.len() && j + 1 < r0.len() implies (#[trigger] out@[k])@.rank
                    >= r0[j as int + 1].rank by {
                    assert(r0[j as int].rank >= r0[j as int + 1].rank);
                }
            }
            j += 1;
        }
    }
    proof {
        assert forall|rank: u64| #[trigger]
            of_rank(views(out@), rank) == of_rank(l0, rank) + of_rank(r0, rank) by {
            assert(l0.skip(i as int) =~= Seq::<EmojiView>::empty());
            assert(r0.skip(j as int) =~= Seq::<EmojiView>::empty());
            lemma_of_rank_none(l0.skip(i as int), rank);
            lemma_of_rank_none(r0.skip(j as int), rank);
            assert(of_rank(views(out@), rank) + of_rank(l0.skip(i as int), rank) + of_rank(
                r0.skip(j as int),
                rank,
            ) =~= of_rank(views(out@), rank));
        }
    }
    out
}

/// The views of two lists, one behind the other.
pub proof fn lemma_views_add(a: Seq<Emoji>, b: Seq<Emoji>)
    ensures
        views(a + b) == views(a) + views(b),
{
    assert(views(a + b) =~= views(a) + views(b));
}

/// Puts a list in the order of its ranking: best first, equals as before.
pub fn sort_by_rank(list: Vec<Emoji>) -> (out: Vec<Emoji>)
    ensures
        is_ranking(views(list@), views(out@)),
    decreases list@.len(),
{
    let n = list.len();
    if n <= 1 {
        return list;
    }
    let ghost whole = list@;
    let mut left = list;
    let right = left.split_off(n / 2);
    let ghost first = left@;
    let ghost second = right@;
    let left = sort_by_rank(left);
    let right = sort_by_rank(right);
    let out = merge(left, right);
    proof {
        assert(whole =~= first + second);
        lemma_views_add(first, second);
        assert forall|rank: u64| #[trigger]
            of_rank(views(out@), rank) == of_rank(views(whole), rank) by {
            let pred = |emoji: EmojiView| emoji.rank == rank;
            Seq::filter_distributes_over_add(views(first), views(second), pred);
            assert(of_rank(views(left@), rank) == of_rank(views(first), rank));
            assert(of_rank(views(right@), rank) == of_rank(views(second), rank));
        }
    }
    out
}

} // verus!
