//! Ordering joined records by user, each user's records staying in the
//! order in which they came.

use vstd::prelude::*;
use crate::record::{MovieLens, MovieLensView};

verus! {

/// Whether the users of `s` never decrease from one record to the next.
pub open spec fn ascending_by_user(s: Seq<MovieLensView>) -> bool {
    forall|i: int, j: int| 0 <= i <= j < s.len() ==> s[i].user_id <= s[j].user_id
}

/// The test that a record is of `user`.
pub open spec fn is_of_user(user: i32) -> spec_fn(MovieLensView) -> bool {
    |r: MovieLensView| r.user_id == user
}

/// The records of `user` in `s`, in the order in which `s` holds them.
pub open spec fn of_user(s: Seq<MovieLensView>, user: i32) -> Seq<MovieLensView> {
    s.filter(is_of_user(user))
}

/// `s`, which is in ascending order, with `r` put behind the last record
/// whose user is at most the user of `r`.
pub open spec fn insert_by_user(s: Seq<MovieLensView>, r: MovieLensView) -> Seq<MovieLensView>
    decreases s.len(),
{
    if s.len() == 0 || s.last().user_id <= r.user_id {
        s.push(r)
    } else {
        insert_by_user(s.drop_last(), r).push(s.last())
    }
}

/// The records of `s` in ascending order of their users, the records of
/// one user in the order in which `s` holds them.
pub open spec fn sorted_by_user(s: Seq<MovieLensView>) -> Seq<MovieLensView>
    decreases s.len(),
{
    if s.len() == 0 {
        s
    } else {
        insert_by_user(sorted_by_user(s.drop_last()), s.last())
    }
}

/// Whether `t` holds the records of `s` in ascending order of their users
/// and, for every user, that user's records as `s` orders them.
pub open spec fn is_stable_sort(s: Seq<MovieLensView>, t: Seq<MovieLensView>) -> bool {
    &&& ascending_by_user(t)
    &&& forall|user: i32| of_user(t, user) == of_user(s, user)
}

/// The records of a user in a sequence with one more record at its end.
proof fn lemma_of_user_push(s: Seq<MovieLensView>, r: MovieLensView, user: i32)
    ensures
        of_user(s.push(r), user) == if r.user_id == user {
            of_user(s, user).push(r)
        } else {
            of_user(s, user)
        },
{
    s.lemma_filter_push(r, is_of_user(user));
}

/// A record of a sequence is among the records of its user, and the
/// records of a user are records of the sequence, and of that user.
proof fn lemma_of_user_members(s: Seq<MovieLensView>, user: i32)
    ensures
        forall|i: int|
            0 <= i < s.len() && s[i].user_id == user ==> of_user(s, user).contains(#[trigger] s[i]),
        forall|k: int|
            0 <= k < of_user(s, user).len() ==> (#[trigger] of_user(s, user)[k]).user_id == user
                && s.contains(of_user(s, user)[k]),
{
    let group = of_user(s, user);
    assert forall|i: int| 0 <= i < s.len() && s[i].user_id == user implies group.contains(
        #[trigger] s[i],
    ) by {
        s.lemma_filter_contains(is_of_user(user), i);
    }
    assert forall|k: int| 0 <= k < group.len() implies (#[trigger] group[k]).user_id == user
        && s.contains(group[k]) by {
        s.lemma_filter_pred(is_of_user(user), k);
        assert(group.contains(group[k]));
        s.lemma_filter_contains_rev(is_of_user(user), group[k]);
    }
}

/// Inserting keeps the order, adds the record to the records of its user,
/// behind those that are there, and leaves the other users' records alone.
proof fn lemma_insert_by_user(s: Seq<MovieLensView>, r: MovieLensView)
    requires
        ascending_by_user(s),
    ensures
        ascending_by_user(insert_by_user(s, r)),
        insert_by_user(s, r).len() == s.len() + 1,
        forall|user: i32|
            #[trigger] of_user(insert_by_user(s, r), user) == if user == r.user_id {
                of_user(s, user).push(r)
            } else {
                of_user(s, user)
            },
        forall|k: int|
            0 <= k < insert_by_user(s, r).len() ==> {
                let x = #[trigger] insert_by_user(s, r)[k];
                x == r || s.contains(x)
            },
    decreases s.len(),
{
    let t = insert_by_user(s, r);
    if s.len() == 0 || s.last().user_id <= r.user_id {
        assert forall|user: i32| #[trigger]
            of_user(t, user) == if user == r.user_id {
                of_user(s, user).push(r)
            } else {
                of_user(s, user)
            } by {
            lemma_of_user_push(s, r, user);
        }
        assert forall|k: int| 0 <= k < t.len() implies {
            let x = #[trigger] t[k];
            x == r || s.contains(x)
        } by {
            if k < s.len() {
                assert(t[k] == s[k]);
            }
        }
    } else {
        let front = s.drop_last();
        let last = s.last();
        let inner = insert_by_user(front, r);
        assert(front.push(last) =~= s);
        lemma_insert_by_user(front, r);
        assert forall|user: i32| #[trigger]
            of_user(t, user) == if user == r.user_id {
                of_user(s, user).push(r)
            } else {
                of_user(s, user)
            } by {
            lemma_of_user_push(inner, last, user);
            lemma_of_user_push(front, last, user);
        }
        assert forall|k: int| 0 <= k < t.len() implies {
            let x = #[trigger] t[k];
            x == r || s.contains(x)
        } by {
            if k < inner.len() {
                assert(t[k] == inner[k]);
                if inner[k] != r {
                    assert(front.contains(inner[k]));
                    let i = choose|i: int| 0 <= i < front.len() && front[i] == inner[k];
                    assert(s[i] == t[k]);
                }
            } else {
                assert(t[k] == s[s.len() - 1]);
            }
        }
        assert forall|i: int, j: int| 0 <= i <= j < t.len() implies t[i].user_id
            <= t[j].user_id by {
            if j < inner.len() {
                assert(t[i] == inner[i] && t[j] == inner[j]);
            } else if i < inner.len() {
                assert(t[i] == inner[i]);
                if inner[i] != r {
                    assert(front.contains(inner[i]));
                    let k = choose|k: int| 0 <= k < front.len() && front[k] == inner[i];
                    assert(s[k].user_id <= s[s.len() - 1].user_id);
                }
            }
        }
    }
}

/// The sorted sequence is in ascending order of users, is as long as the
/// sequence it was made from, and holds every user's records as that
/// sequence orders them.
pub proof fn lemma_sorted_by_user(s: Seq<MovieLensView>)
    ensures
        is_stable_sort(s, sorted_by_user(s)),
        sorted_by_user(s).len() == s.len(),
    decreases s.len(),
{
    if s.len() == 0 {
    } else {
        let front = s.drop_last();
        lemma_sorted_by_user(front);
        lemma_insert_by_user(sorted_by_user(front), s.last());
        assert(front.push(s.last()) =~= s);
        assert forall|user: i32| of_user(sorted_by_user(s), user) == of_user(s, user) by {
            lemma_of_user_push(front, s.last(), user);
        }
    }
}

/// Inserting adds one occurrence of the record and changes no other count.
proof fn lemma_insert_by_user_counts(s: Seq<MovieLensView>, r: MovieLensView)
    ensures
        insert_by_user(s, r).to_multiset() == s.to_multiset().insert(r),
    decreases s.len(),
{
    broadcast use vstd::seq_lib::to_multiset_build;

    if s.len() == 0 || s.last().user_id <= r.user_id {
    } else {
        let front = s.drop_last();
        lemma_insert_by_user_counts(front, r);
        assert(front.push(s.last()) =~= s);
        assert(front.to_multiset().insert(r).insert(s.last()) =~= front.to_multiset().insert(
            s.last(),
        ).insert(r));
    }
}

/// Sorting neither adds nor drops a record: the sorted sequence holds each
/// record as often as the sequence it was made from.
pub proof fn lemma_sorted_by_user_counts(s: Seq<MovieLensView>)
    ensures
        sorted_by_user(s).to_multiset() == s.to_multiset(),
        forall|r: MovieLensView| sorted_by_user(s).contains(r) <==> s.contains(r),
    decreases s.len(),
{
    broadcast use vstd::seq_lib::to_multiset_build;

    if s.len() > 0 {
        let front = s.drop_last();
        lemma_sorted_by_user_counts(front);
        lemma_insert_by_user_counts(sorted_by_user(front), s.last());
        assert(front.push(s.last()) =~= s);
    }
    assert forall|r: MovieLensView| sorted_by_user(s).contains(r) <==> s.contains(r) by {
        vstd::seq_lib::to_multiset_contains(sorted_by_user(s), r);
        vstd::seq_lib::to_multiset_contains(s, r);
    }
}

/// Two sequences in ascending order of users that hold the same records
/// for every user, in the same order, are one and the same sequence.
pub proof fn lemma_order_is_unique(a: Seq<MovieLensView>, b: Seq<MovieLensView>)
    requires
        ascending_by_user(a),
        ascending_by_user(b),
        forall|user: i32| of_user(a, user) == of_user(b, user),
    ensures
        a == b,
    decreases a.len(),
{
    if a.len() == 0 {
        if b.len() > 0 {
            let user = b[0].user_id;
            lemma_of_user_members(b, user);
            lemma_of_user_members(a, user);
            assert(of_user(b, user).contains(b[0]));
            assert(of_user(a, user) == of_user(b, user));
            assert(a.contains(of_user(a, user)[0]));
        }
        assert(a =~= b);
    } else {
        let x = a.last();
        let user = x.user_id;
        let a0 = a.drop_last();
        assert(a0.push(x) =~= a);
        lemma_of_user_push(a0, x, user);
        assert(of_user(b, user) == of_user(a0, user).push(x));
        lemma_of_user_members(b, user);
        assert(b.contains(of_user(b, user)[of_user(a0, user).len() as int]));
        assert(b.len() > 0);
        let y = b.last();
        let b0 = b.drop_last();
        assert(b0.push(y) =~= b);
        // The last record of `b` is of the same user as the last of `a`.
        assert(y.user_id == user) by {
            lemma_of_user_members(a, y.user_id);
            lemma_of_user_members(b, y.user_id);
            assert(of_user(b, y.user_id).contains(b[b.len() - 1]));
            let k = choose|k: int|
                0 <= k < of_user(a, y.user_id).len() && of_user(a, y.user_id)[k] == y;
            assert(a.contains(of_user(a, y.user_id)[k]));
            let i = choose|i: int| 0 <= i < a.len() && a[i] == y;
            assert(a[i].user_id <= a[a.len() - 1].user_id);
            let m = of_user(a0, user).len() as int;
            assert(of_user(b, user)[m] == x);
            let j = choose|j: int| 0 <= j < b.len() && b[j] == x;
            assert(b[j].user_id <= b[b.len() - 1].user_id);
        }
        lemma_of_user_push(b0, y, user);
        assert(y == x) by {
            assert(of_user(b0, user).push(y) == of_user(a0, user).push(x));
            assert(of_user(b0, user).push(y).last() == y);
            assert(of_user(a0, user).push(x).last() == x);
        }
        assert forall|other: i32| of_user(a0, other) == of_user(b0, other) by {
            lemma_of_user_push(a0, x, other);
            lemma_of_user_push(b0, y, other);
            if other == user {
                assert(of_user(a0, user).push(x).drop_last() =~= of_user(a0, user));
                assert(of_user(b0, user).push(y).drop_last() =~= of_user(b0, user));
            }
        }
        lemma_order_is_unique(a0, b0);
    }
}

/// A stable sort of a sequence is the sorted sequence.
pub proof fn lemma_stable_sort_is_sorted(s: Seq<MovieLensView>, t: Seq<MovieLensView>)
    requires
        is_stable_sort(s, t),
    ensures
        t == sorted_by_user(s),
{
    lemma_sorted_by_user(s);
    lemma_order_is_unique(t, sorted_by_user(s));
}

/// Merges two vectors, each in ascending order of users, into one: a
/// record of `left` comes before a record of `right` of the same user.
fn merge(left: Vec<MovieLens>, right: Vec<MovieLens>) -> (out: Vec<MovieLens>)
    requires
        ascending_by_user(left.deep_view()),
        ascending_by_user(right.deep_view()),
    ensures
        ascending_by_user(out.deep_view()),
        forall|user: i32|
            of_user(out.deep_view(), user) == of_user(left.deep_view(), user) + of_user(
                right.deep_view(),
                user,
            ),
{
    let mut left = left;
    let mut right = right;
    let ghost a = left.deep_view();
    let ghost b = right.deep_view();
    // The end of the merged sequence, built from its last record backwards.
    let mut back: Vec<MovieLens> = Vec::new();
    let ghost mut tail: Seq<MovieLensView> = Seq::empty();
    proof {
        assert(a.skip(a.len() as int) =~= Seq::empty());
        assert(b.skip(b.len() as int) =~= Seq::empty());
        assert(a.take(a.len() as int) =~= a);
        assert(b.take(b.len() as int) =~= b);
        assert forall|user: i32| of_user(tail, user) == of_user(a.skip(a.len() as int), user)
            + of_user(b.skip(b.len() as int), user) by {
            reveal(Seq::filter);
        }
    }
    while left.len() > 0 || right.len() > 0
        invariant
            ascending_by_user(a),
            ascending_by_user(b),
            left.len() <= a.len(),
            right.len() <= b.len(),
            left.deep_view() == a.take(left.len() as int),
            right.deep_view() == b.take(right.len() as int),
            back.len() == tail.len(),
            forall|k: int| 0 <= k < tail.len() ==> back[k].deep_view() == tail[tail.len() - 1 - k],
            ascending_by_user(tail),
            forall|i: int, k: int|
                0 <= i < left.len() && 0 <= k < tail.len() ==> a[i].user_id <= tail[k].user_id,
            forall|j: int, k: int|
                0 <= j < right.len() && 0 <= k < tail.len() ==> b[j].user_id <= tail[k].user_id,
            forall|i: int, j: int|
                left.len() <= i < a.len() && 0 <= j < right.len() ==> b[j].user_id < a[i].user_id,
            forall|user: i32|
                of_user(tail, user) == of_user(a.skip(left.len() as int), user) + of_user(
                    b.skip(right.len() as int),
                    user,
                ),
        decreases left.len() + right.len(),
    {
        let from_left = if right.len() == 0 {
            true
        } else if left.len() == 0 {
            false
        } else {
            assert(left[left.len() - 1].deep_view() == left.deep_view()[left.len() - 1]);
            assert(right[right.len() - 1].deep_view() == right.deep_view()[right.len() - 1]);
            left[left.len() - 1].user_id > right[right.len() - 1].user_id
        };
        let ghost n = left.len() as int;
        let ghost m = right.len() as int;
        let ghost left_before = left.deep_view();
        let ghost right_before = right.deep_view();
        if from_left {
            let record = left.pop().unwrap();
            proof {
                let x = record.deep_view();
                assert(x == left_before[n - 1]);
                assert(x == a[n - 1]);
                assert(left.deep_view() =~= a.take(n - 1));
                assert(a.skip(n - 1) =~= seq![x] + a.skip(n));
                assert forall|user: i32| of_user(seq![x] + tail, user) == of_user(
                    a.skip(n - 1),
                    user,
                ) + of_user(b.skip(m), user) by {
                    tail.lemma_filter_prepend(x, is_of_user(user));
                    a.skip(n).lemma_filter_prepend(x, is_of_user(user));
                    assert(of_user(tail, user) == of_user(a.skip(n), user) + of_user(
                        b.skip(m),
                        user,
                    ));
                    let first = if x.user_id == user {
                        seq![x]
                    } else {
                        Seq::empty()
                    };
                    assert(first + (of_user(a.skip(n), user) + of_user(b.skip(m), user)) =~= (first
                        + of_user(a.skip(n), user)) + of_user(b.skip(m), user));
                }
                tail = seq![x] + tail;
            }
            back.push(record);
        } else {
            let record = right.pop().unwrap();
            proof {
                let x = record.deep_view();
                assert(x == right_before[m - 1]);
                assert(x == b[m - 1]);
                assert(right.deep_view() =~= b.take(m - 1));
                assert(b.skip(m - 1) =~= seq![x] + b.skip(m));
                assert forall|user: i32| of_user(seq![x] + tail, user) == of_user(
                    a.skip(n),
                    user,
                ) + of_user(b.skip(m - 1), user) by {
                    tail.lemma_filter_prepend(x, is_of_user(user));
                    b.skip(m).lemma_filter_prepend(x, is_of_user(user));
                    assert(of_user(tail, user) == of_user(a.skip(n), user) + of_user(
                        b.skip(m),
                        user,
                    ));
                    if x.user_id == user {
                        // No merged record of `left` is of this user.
                        lemma_of_user_members(a.skip(n), user);
                        if of_user(a.skip(n), user).len() > 0 {
                            let y = of_user(a.skip(n), user)[0];
                            assert(a.skip(n).contains(y));
                            let i = choose|i: int| 0 <= i < a.skip(n).len() && a.skip(n)[i] == y;
                            assert(a[n + i] == y);
                            assert(b[m - 1].user_id < a[n + i].user_id);
                        }
                        assert(of_user(a.skip(n), user) =~= Seq::empty());
                        assert(seq![x] + (of_user(a.skip(n), user) + of_user(b.skip(m), user))
                            =~= of_user(a.skip(n), user) + (seq![x] + of_user(b.skip(m), user)));
                    } else {
                        assert(Seq::<MovieLensView>::empty() + of_user(tail, user) =~= of_user(
                            tail,
                            user,
                        ));
                        assert(Seq::<MovieLensView>::empty() + of_user(b.skip(m), user)
                            =~= of_user(b.skip(m), user));
                    }
                }
                tail = seq![x] + tail;
            }
            back.push(record);
        }
    }
    proof {
        assert(a.skip(0) =~= a);
        assert(b.skip(0) =~= b);
    }
    let mut out: Vec<MovieLens> = Vec::new();
    while back.len() > 0
        invariant
            back.len() + out.len() == tail.len(),
            forall|k: int|
                0 <= k < back.len() ==> back[k].deep_view() == tail[tail.len() - 1 - k],
            forall|k: int| 0 <= k < out.len() ==> out[k].deep_view() == tail[k],
        decreases back.len(),
    {
        let record = back.pop().unwrap();
        out.push(record);
    }
    assert(out.deep_view() =~= tail);
    out
}

/// Sorts `records` by user, keeping each user's records in their order.
fn merge_sort(records: Vec<MovieLens>) -> (out: Vec<MovieLens>)
    ensures
        is_stable_sort(records.deep_view(), out.deep_view()),
    decreases records.len(),
{
    if records.len() <= 1 {
        return records;
    }
    let ghost whole = records.deep_view();
    let mut left = records;
    let middle = left.len() / 2;
    let right = left.split_off(middle);
    proof {
        assert(left.deep_view() + right.deep_view() =~= whole);
        assert forall|user: i32| of_user(whole, user) == of_user(left.deep_view(), user) + of_user(
            right.deep_view(),
            user,
        ) by {
            Seq::filter_distributes_over_add(
                left.deep_view(),
                right.deep_view(),
                is_of_user(user),
            );
        }
    }
    let left = merge_sort(left);
    let right = merge_sort(right);
    merge(left, right)
}

/// Puts `records` in ascending order of their users. Records of one user
/// stay in the order in which they came.
pub fn sort_by_user_id(records: Vec<MovieLens>) -> (out: Vec<MovieLens>)
    ensures
        out.deep_view() == sorted_by_user(records.deep_view()),
{
    let ghost before = records.deep_view();
    let out = merge_sort(records);
    proof {
        lemma_stable_sort_is_sorted(before, out.deep_view());
    }
    out
}

} // verus!
