//! The sample of users: the users with the lowest numbers among those who
//! gave a rating.

use vstd::prelude::*;
use crate::record::{Rating, RatingView};

verus! {

/// Whether `user` gave one of `ratings`.
pub open spec fn is_user(ratings: Seq<RatingView>, user: i32) -> bool {
    exists|i: int| 0 <= i < ratings.len() && (#[trigger] ratings[i]).user_id == user
}

/// The users who gave `ratings`.
pub open spec fn users(ratings: Seq<RatingView>) -> Set<i32> {
    Set::new(|user: i32| is_user(ratings, user))
}

/// The users who gave `ratings` and whose number is below `user`.
pub open spec fn users_below(ratings: Seq<RatingView>, user: i32) -> Set<i32> {
    Set::new(|other: i32| other < user && is_user(ratings, other))
}

/// Whether `user` is one of the `size` users with the lowest numbers among
/// those who gave `ratings`: a user of whom fewer than `size` users have a
/// lower number.
pub open spec fn in_sample(ratings: Seq<RatingView>, size: nat, user: i32) -> bool {
    is_user(ratings, user) && users_below(ratings, user).len() < size
}

/// The `size` users with the lowest numbers among those who gave
/// `ratings`; all of them, where there are no more than `size`.
pub open spec fn sample_of(ratings: Seq<RatingView>, size: nat) -> Set<i32> {
    Set::new(|user: i32| in_sample(ratings, size, user))
}

/// Whether the numbers of `ids` grow from each to the next.
pub open spec fn strictly_ascending(ids: Seq<i32>) -> bool {
    forall|i: int, j: int| 0 <= i < j < ids.len() ==> ids[i] < ids[j]
}

/// The users who gave ratings are finitely many, and so are those below
/// any number.
pub proof fn lemma_users_finite(ratings: Seq<RatingView>, user: i32)
    ensures
        users(ratings).finite(),
        users_below(ratings, user).finite(),
        users_below(ratings, user).len() <= users(ratings).len(),
{
    let ids = ratings.map_values(|r: RatingView| r.user_id);
    vstd::seq_lib::seq_to_set_is_finite(ids);
    assert forall|other: i32| users(ratings).contains(other) == ids.to_set().contains(other) by {
        if is_user(ratings, other) {
            let i = choose|i: int| 0 <= i < ratings.len() && ratings[i].user_id == other;
            assert(ids[i] == other);
        }
        if ids.contains(other) {
            let i = choose|i: int| 0 <= i < ids.len() && ids[i] == other;
            assert(ratings[i].user_id == other);
        }
    }
    assert(users(ratings) =~= ids.to_set());
    vstd::set_lib::lemma_len_subset(users_below(ratings, user), users(ratings));
}

/// The sample holds the lowest users: every user of the sample has a lower
/// number than every user who gave a rating and is not of the sample.
pub proof fn lemma_sample_is_lowest(ratings: Seq<RatingView>, size: nat, inside: i32, outside: i32)
    requires
        in_sample(ratings, size, inside),
        is_user(ratings, outside),
        !in_sample(ratings, size, outside),
    ensures
        inside < outside,
{
    if outside < inside {
        lemma_users_finite(ratings, inside);
        vstd::set_lib::lemma_len_subset(
            users_below(ratings, outside),
            users_below(ratings, inside),
        );
    }
}

/// A set of users, kept in ascending order of their numbers.
#[derive(Debug)]
pub struct UserSample {
    ids: Vec<i32>,
}

impl View for UserSample {
    type V = Set<i32>;

    closed spec fn view(&self) -> Set<i32> {
        self.ids@.to_set()
    }
}

/// Ids in strictly ascending order that are the users of `ratings` are as
/// many as these users, and each has as many users below it as ids stand
/// before it.
proof fn lemma_users_counted(ratings: Seq<RatingView>, ids: Seq<i32>)
    requires
        strictly_ascending(ids),
        forall|user: i32| ids.contains(user) <==> is_user(ratings, user),
    ensures
        users(ratings).finite(),
        users(ratings).len() == ids.len(),
        forall|k: int|
            0 <= k < ids.len() ==> (#[trigger] users_below(ratings, ids[k])).finite()
                && users_below(ratings, ids[k]).len() == k,
{
    vstd::seq_lib::seq_to_set_is_finite(ids);
    assert(users(ratings) =~= ids.to_set());
    ids.unique_seq_to_set();
    assert forall|k: int| 0 <= k < ids.len() implies (#[trigger] users_below(
        ratings,
        ids[k],
    )).finite() && users_below(ratings, ids[k]).len() == k by {
        let front = ids.take(k);
        vstd::seq_lib::seq_to_set_is_finite(front);
        front.unique_seq_to_set();
        assert forall|other: i32| users_below(ratings, ids[k]).contains(other)
            == front.to_set().contains(other) by {
            if other < ids[k] && is_user(ratings, other) {
                assert(ids.contains(other));
                let i = choose|i: int| 0 <= i < ids.len() && ids[i] == other;
                assert(i < k);
                assert(front[i] == other);
            }
            if front.contains(other) {
                let i = choose|i: int| 0 <= i < front.len() && front[i] == other;
                assert(ids[i] == other);
                assert(ids.contains(other));
            }
        }
        assert(users_below(ratings, ids[k]) =~= front.to_set());
    }
}

/// The position of the first id that is not below `user`.
fn lower_bound(ids: &Vec<i32>, user: i32) -> (at: usize)
    requires
        strictly_ascending(ids@),
    ensures
        at <= ids.len(),
        forall|i: int| 0 <= i < at ==> ids[i] < user,
        forall|i: int| at <= i < ids.len() ==> ids[i] >= user,
{
    let mut low: usize = 0;
    let mut high: usize = ids.len();
    while low < high
        invariant
            strictly_ascending(ids@),
            low <= high <= ids.len(),
            forall|i: int| 0 <= i < low ==> ids[i] < user,
            forall|i: int| high <= i < ids.len() ==> ids[i] >= user,
        decreases high - low,
    {
        let middle = low + (high - low) / 2;
        if ids[middle] < user {
            low = middle + 1;
        } else {
            high = middle;
        }
    }
    low
}

/// The users who gave `ratings`, each once, in ascending order.
pub fn distinct_users(ratings: &Vec<Rating>) -> (ids: Vec<i32>)
    ensures
        strictly_ascending(ids@),
        forall|user: i32| ids@.contains(user) <==> is_user(ratings.deep_view(), user),
{
    let ghost all = ratings.deep_view();
    let mut ids: Vec<i32> = Vec::new();
    let mut i: usize = 0;
    while i < ratings.len()
        invariant
            all == ratings.deep_view(),
            i <= ratings.len(),
            strictly_ascending(ids@),
            forall|user: i32| ids@.contains(user) <==> is_user(all.take(i as int), user),
        decreases ratings.len() - i,
    {
        let user = ratings[i].user_id;
        let at = lower_bound(&ids, user);
        let ghost before = ids@;
        let found = at < ids.len() && ids[at] == user;
        if !found {
            ids.insert(at, user);
            assert(ids@[at as int] == user);
        }
        proof {
            let done = all.take(i as int);
            let next = all.take(i + 1);
            assert(next[i as int].user_id == user);
            assert(ids@.contains(user));
            assert forall|other: i32| ids@.contains(other) <==> is_user(next, other) by {
                if ids@.contains(other) && other != user {
                    let k = choose|k: int| 0 <= k < ids@.len() && ids@[k] == other;
                    if found {
                        assert(before.contains(other));
                    } else if k < at {
                        assert(before[k] == other);
                    } else {
                        assert(before[k - 1] == other);
                    }
                    assert(before.contains(other));
                    assert(is_user(done, other));
                    let j = choose|j: int| 0 <= j < done.len() && done[j].user_id == other;
                    assert(next[j].user_id == other);
                }
                if is_user(next, other) && other != user {
                    let j = choose|j: int| 0 <= j < next.len() && next[j].user_id == other;
                    assert(done[j].user_id == other);
                    assert(before.contains(other));
                    let k = choose|k: int| 0 <= k < before.len() && before[k] == other;
                    if found {
                    } else if k < at {
                        assert(ids@[k] == other);
                    } else {
                        assert(ids@[k + 1] == other);
                    }
                }
            }
        }
        i += 1;
    }
    assert(all.take(ratings.len() as int) =~= all);
    ids
}

impl UserSample {
    #[verifier::type_invariant]
    spec fn well_formed(&self) -> bool {
        strictly_ascending(self.ids@)
    }

    /// The `size` users with the lowest numbers among those who gave
    /// `ratings`, or nothing where fewer than `size` users gave any.
    pub fn lowest(ratings: &Vec<Rating>, size: usize) -> (r: Option<UserSample>)
        ensures
            users(ratings.deep_view()).finite(),
            r is Some <==> users(ratings.deep_view()).len() >= size,
            r matches Some(sample) ==> sample@ == sample_of(ratings.deep_view(), size as nat)
                && sample@.len() == size,
    {
        let mut ids = distinct_users(ratings);
        let ghost all = ids@;
        proof {
            lemma_users_counted(ratings.deep_view(), all);
        }
        if ids.len() < size {
            return None;
        }
        ids.truncate(size);
        proof {
            let kept = ids@;
            assert(kept =~= all.take(size as int));
            kept.unique_seq_to_set();
            assert forall|user: i32| kept.to_set().contains(user) == in_sample(
                ratings.deep_view(),
                size as nat,
                user,
            ) by {
                if kept.contains(user) {
                    let k = choose|k: int| 0 <= k < kept.len() && kept[k] == user;
                    assert(all[k] == user);
                    assert(all.contains(user));
                    assert(users_below(ratings.deep_view(), all[k]).len() == k);
                }
                if in_sample(ratings.deep_view(), size as nat, user) {
                    assert(all.contains(user));
                    let k = choose|k: int| 0 <= k < all.len() && all[k] == user;
                    assert(users_below(ratings.deep_view(), all[k]).len() == k);
                    assert(kept[k] == user);
                }
            }
            assert(kept.to_set() =~= sample_of(ratings.deep_view(), size as nat));
        }
        Some(UserSample { ids })
    }

    /// Whether `user` belongs to the sample.
    pub fn contains(&self, user: i32) -> (found: bool)
        ensures
            found == self@.contains(user),
    {
        proof {
            use_type_invariant(self);
        }
        let at = lower_bound(&self.ids, user);
        let found = at < self.ids.len() && self.ids[at] == user;
        proof {
            if self.ids@.contains(user) {
                let k = choose|k: int| 0 <= k < self.ids@.len() && self.ids@[k] == user;
                assert(k == at);
            }
        }
        found
    }

    /// How many users the sample holds.
    pub fn len(&self) -> (n: usize)
        ensures
            n == self@.len(),
    {
        proof {
            use_type_invariant(self);
            self.ids@.unique_seq_to_set();
        }
        self.ids.len()
    }

    /// The users of the sample, in ascending order.
    pub fn ids(&self) -> (ids: &Vec<i32>)
        ensures
            strictly_ascending(ids@),
            ids@.to_set() == self@,
    {
        proof {
            use_type_invariant(self);
        }
        &self.ids
    }
}

} // verus!
