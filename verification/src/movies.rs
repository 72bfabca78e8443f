//! Ratings as they come in, and the rating store that turns them into a
//! rating matrix.
use vstd::prelude::*;
use std::collections::HashMap;
use crate::matrix::{
    row_bounded, row_nonnegative, row_view, RatingMatrix, MAX_ITEMS, MAX_RATING, MAX_USERS,
    RATING_STEP,
};
use crate::sparse::{
    coo_new, coo_push, coo_shape, coo_triplets, csr_from_coo, distinct_positions, row_wf,
};

verus! {

broadcast use vstd::std_specs::hash::group_hash_axioms;

pub type MID = usize;

pub type UID = usize;

/// A movie with the rating that a user gave it.
#[derive(Default, Debug, Clone, PartialEq, Eq, Hash, PartialOrd, Ord)]
pub struct Movie {
    pub id: usize,
    pub rating: u8,
}

impl Movie {
    pub fn new(id: usize, rating: u8) -> (movie: Self)
        ensures
            movie.id == id,
            movie.rating == rating,
    {
        Self { id, rating }
    }
}

/// The movies that one user rated. As a set would, the ratings are meant to
/// hold no movie with its rating twice: `wf` says so, `new` and `insert`
/// keep it, and `is_wf` tests it for ratings that came another way.
#[derive(Default, Debug, Clone, PartialEq, Eq)]
pub struct UserRatings {
    pub user_id: usize,
    pub ratings: Vec<Movie>,
}

impl UserRatings {
    /// No movie with its rating occurs twice.
    pub open spec fn wf(&self) -> bool {
        forall|p: int, q: int|
            0 <= p < q < self.ratings@.len() ==> #[trigger] self.ratings@[p] != #[trigger] self.ratings@[q]
    }

    /// The ratings of a user who has rated nothing yet.
    pub fn new(user_id: usize) -> (user_ratings: Self)
        ensures
            user_ratings.wf(),
            user_ratings.user_id == user_id,
            user_ratings.ratings@.len() == 0,
    {
        Self { user_id, ratings: Vec::new() }
    }

    /// Whether the movie with this rating is among the ratings.
    pub fn contains(&self, movie: &Movie) -> (found: bool)
        ensures
            found == self.ratings@.contains(*movie),
    {
        let mut p: usize = 0;
        while p < self.ratings.len()
            invariant
                p <= self.ratings@.len(),
                forall|q: int| 0 <= q < p ==> #[trigger] self.ratings@[q] != *movie,
            decreases self.ratings@.len() - p,
        {
            if self.ratings[p].id == movie.id && self.ratings[p].rating == movie.rating {
                assert(self.ratings@[p as int] == *movie);
                return true;
            }
            p += 1;
        }
        false
    }

    /// Adds the movie with its rating unless it is there already, and says
    /// whether it was added.
    pub fn insert(&mut self, movie: Movie) -> (added: bool)
        requires
            old(self).wf(),
        ensures
            final(self).wf(),
            final(self).user_id == old(self).user_id,
            added == !old(self).ratings@.contains(movie),
            added ==> final(self).ratings@ == old(self).ratings@.push(movie),
            !added ==> final(self).ratings@ == old(self).ratings@,
    {
        if self.contains(&movie) {
            false
        } else {
            self.ratings.push(movie);
            true
        }
    }

    /// Whether no movie with its rating occurs twice.
    pub fn is_wf(&self) -> (valid: bool)
        ensures
            valid == self.wf(),
    {
        let mut q: usize = 0;
        while q < self.ratings.len()
            invariant
                q <= self.ratings@.len(),
                forall|a: int, b: int|
                    0 <= a < b < q ==> #[trigger] self.ratings@[a] != #[trigger] self.ratings@[b],
            decreases self.ratings@.len() - q,
        {
            let mut p: usize = 0;
            while p < q
                invariant
                    p <= q,
                    q < self.ratings@.len(),
                    forall|a: int| 0 <= a < p ==> #[trigger] self.ratings@[a] != self.ratings@[q as int],
                decreases q - p,
            {
                if self.ratings[p].id == self.ratings[q].id && self.ratings[p].rating
                    == self.ratings[q].rating {
                    assert(self.ratings@[p as int] == self.ratings@[q as int]);
                    return false;
                }
                p += 1;
            }
            q += 1;
        }
        true
    }
}

/// A query for recommendations: the ratings of a user by movie.
#[derive(Clone, Debug)]
pub struct RecoQuery {
    pub user_id: usize,
    pub ratings: HashMap<MID, u8>,
}

/// The ratings of the movies by movie id; where an id occurs several times,
/// the last rating counts.
pub open spec fn ratings_by_id(movies: Seq<Movie>) -> Map<usize, u8>
    decreases movies.len(),
{
    if movies.len() == 0 {
        Map::empty()
    } else {
        ratings_by_id(movies.drop_last()).insert(movies.last().id, movies.last().rating)
    }
}

/// The ratings of the movies by movie id.
fn collect_ratings(movies: &Vec<Movie>) -> (ratings: HashMap<MID, u8>)
    ensures
        ratings@ == ratings_by_id(movies@),
{
    let mut ratings: HashMap<MID, u8> = HashMap::new();
    let mut p: usize = 0;
    assert(movies@.take(0) =~= Seq::<Movie>::empty());
    while p < movies.len()
        invariant
            p <= movies@.len(),
            ratings@ == ratings_by_id(movies@.take(p as int)),
        decreases movies@.len() - p,
    {
        proof {
            let next = movies@.take(p + 1);
            assert(next.drop_last() =~= movies@.take(p as int));
            assert(next.last() == movies@[p as int]);
        }
        ratings.insert(movies[p].id, movies[p].rating);
        p += 1;
    }
    assert(movies@.take(movies@.len() as int) =~= movies@);
    ratings
}

/// Two hash maps that hold the same ratings need not be the same value, so
/// no query is named as the result of the conversion: `from` itself says what
/// the query it returns holds.
impl vstd::std_specs::convert::FromSpecImpl<UserRatings> for RecoQuery {
    open spec fn obeys_from_spec() -> bool {
        false
    }

    open spec fn from_spec(user_ratings: UserRatings) -> RecoQuery {
        arbitrary()
    }
}

impl From<UserRatings> for RecoQuery {
    /// The query of the user: the user's ratings by movie id.
    fn from(user_ratings: UserRatings) -> (query: Self)
        ensures
            query.user_id == user_ratings.user_id,
            query.ratings@ == ratings_by_id(user_ratings.ratings@),
    {
        Self { ratings: collect_ratings(&user_ratings.ratings), user_id: user_ratings.user_id }
    }
}

/// As for `UserRatings`: `from` itself says what the query holds.
impl vstd::std_specs::convert::FromSpecImpl<Vec<Movie>> for RecoQuery {
    open spec fn obeys_from_spec() -> bool {
        false
    }

    open spec fn from_spec(ratings: Vec<Movie>) -> RecoQuery {
        arbitrary()
    }
}

impl From<Vec<Movie>> for RecoQuery {
    /// The query of user zero that holds these ratings by movie id.
    fn from(ratings: Vec<Movie>) -> (query: Self)
        ensures
            query.user_id == 0,
            query.ratings@ == ratings_by_id(ratings@),
    {
        Self { ratings: collect_ratings(&ratings), user_id: 0 }
    }
}

/// The ratings of the items below `n`, as `(item, rating)` with items
/// ascending and ratings in millionths of a step, as a matrix holds them.
pub open spec fn query_entries(ratings: Map<usize, u8>, n: int) -> Seq<(int, int)>
    decreases n,
{
    if n <= 0 {
        Seq::empty()
    } else if ratings.contains_key((n - 1) as usize) {
        query_entries(ratings, n - 1).push((n - 1, ratings[(n - 1) as usize] * RATING_STEP))
    } else {
        query_entries(ratings, n - 1)
    }
}

/// The entries of a query are a well-formed row of non-negative ratings.
pub proof fn lemma_query_entries(ratings: Map<usize, u8>, n: int)
    requires
        0 <= n <= usize::MAX,
    ensures
        row_wf(query_entries(ratings, n), n),
        row_bounded(query_entries(ratings, n), MAX_RATING as int),
        query_entries(ratings, n).len() <= n,
    decreases n,
{
    if n > 0 {
        lemma_query_entries(ratings, n - 1);
        let before = query_entries(ratings, n - 1);
        let all = query_entries(ratings, n);
        assert forall|p: int| 0 <= p < all.len() implies 0 <= (#[trigger] all[p]).0 < n
            && -255_000_000 <= all[p].1 <= 255_000_000 by {
            if p < before.len() {
                assert(all[p] == before[p]);
            }
        }
        assert forall|p: int, q: int| 0 <= p < q < all.len() implies (#[trigger] all[p]).0 < (
        #[trigger] all[q]).0 by {
            assert(all[p] == before[p]);
            if q < before.len() {
                assert(all[q] == before[q]);
            }
        }
    }
}

impl RecoQuery {
    /// A copy of the ratings by movie id.
    pub fn get_ratings_hashmap(&self) -> (ratings: HashMap<usize, u8>)
        ensures
            ratings@ == self.ratings@,
    {
        self.ratings.clone()
    }

    /// The query as a sparse vector over `items` items: its ratings of the
    /// items below `items`, items ascending. Ratings of other items are left
    /// out.
    pub fn query_vector(&self, items: usize) -> (entries: Vec<(usize, i64)>)
        ensures
            row_view(entries@) == query_entries(self.ratings@, items as int),
    {
        let mut entries: Vec<(usize, i64)> = Vec::new();
        let mut item: usize = 0;
        assert(row_view(entries@) =~= query_entries(self.ratings@, 0));
        while item < items
            invariant
                item <= items,
                row_view(entries@) == query_entries(self.ratings@, item as int),
            decreases items - item,
        {
            match self.ratings.get(&item) {
                Some(rating) => {
                    let ghost before = row_view(entries@);
                    entries.push((item, (*rating as i64) * 1_000_000));
                    assert(row_view(entries@) =~= before.push((item as int, *rating * RATING_STEP)));
                },
                None => {},
            }
            item += 1;
        }
        entries
    }
}

/// One rating: `user_id` gave `item_id` the value `rating`.
#[derive(Clone, Copy, Debug, PartialEq, Eq)]
pub struct RatingEvent {
    pub user_id: usize,
    pub item_id: usize,
    pub rating: u8,
}

/// A rating event names a user or an item beyond the declared capacity.
#[derive(Clone, Copy, Debug, PartialEq, Eq)]
pub struct OutOfRangeError {
    /// Position of the first such event.
    pub position: usize,
    pub user_id: usize,
    pub item_id: usize,
}

/// The event names a user and an item within the capacity.
pub open spec fn in_range(e: RatingEvent, users: int, items: int) -> bool {
    e.user_id < users && e.item_id < items
}

/// Both events rate the same item for the same user.
pub open spec fn same_pair(a: RatingEvent, b: RatingEvent) -> bool {
    a.user_id == b.user_id && a.item_id == b.item_id
}

/// The event at position `p` is accepted when no later event rates the same
/// pair: of several ratings of one item by one user the last one counts.
pub open spec fn accepted(events: Seq<RatingEvent>, p: int) -> bool {
    &&& 0 <= p < events.len()
    &&& forall|q: int| p < q < events.len() ==> !same_pair(events[p], #[trigger] events[q])
}

/// The number of accepted events among the first `n`.
pub open spec fn accepted_count(events: Seq<RatingEvent>, n: int) -> int
    decreases n,
{
    if n <= 0 {
        0
    } else {
        accepted_count(events, n - 1) + if accepted(events, n - 1) {
            1int
        } else {
            0int
        }
    }
}

/// One number for each pair of user and item.
spec fn pair_key(e: RatingEvent) -> u128 {
    (e.user_id as int * 0x1_0000_0000_0000_0000 + e.item_id as int) as u128
}

/// The number of the event's pair of user and item.
fn key_of(e: &RatingEvent) -> (k: u128)
    ensures
        k == pair_key(*e),
{
    (e.user_id as u128) * 0x1_0000_0000_0000_0000u128 + (e.item_id as u128)
}

/// Two events have one number exactly when they rate the same pair.
proof fn lemma_pair_key(a: RatingEvent, b: RatingEvent)
    ensures
        pair_key(a) == pair_key(b) <==> same_pair(a, b),
{
    let ka = a.user_id as int * 0x1_0000_0000_0000_0000 + a.item_id as int;
    let kb = b.user_id as int * 0x1_0000_0000_0000_0000 + b.item_id as int;
    assert(0 <= ka <= u128::MAX);
    assert(0 <= kb <= u128::MAX);
    if ka == kb {
        assert(a.user_id == b.user_id);
    }
}

/// How often an item was rated, and what the ratings add up to.
#[derive(Clone, Copy, Debug, PartialEq, Eq)]
pub struct ItemTotal {
    pub count: u64,
    pub sum: u128,
}

/// The number of events among the first `n` that rate `item`.
pub open spec fn rated_count(events: Seq<RatingEvent>, item: int, n: int) -> int
    decreases n,
{
    if n <= 0 {
        0
    } else {
        rated_count(events, item, n - 1) + if events[n - 1].item_id == item {
            1int
        } else {
            0int
        }
    }
}

/// The sum of the ratings that the first `n` events give `item`.
pub open spec fn rated_sum(events: Seq<RatingEvent>, item: int, n: int) -> int
    decreases n,
{
    if n <= 0 {
        0
    } else {
        rated_sum(events, item, n - 1) + if events[n - 1].item_id == item {
            events[n - 1].rating as int
        } else {
            0int
        }
    }
}

/// The matrix holds the accepted events, one stored value for each, and
/// nothing else; a rating is stored in millionths of a step.
pub open spec fn holds_events(m: RatingMatrix, events: Seq<RatingEvent>, users: int, items: int) -> bool {
    &&& m.wf()
    &&& !m.is_centered()
    &&& m@.len() == users
    &&& m.items() == items
    &&& m.stored() == accepted_count(events, events.len() as int)
    &&& forall|u: int, i: int, v: int|
        0 <= u < users ==> (#[trigger] m@[u].contains((i, v)) <==> exists|p: int|
            accepted(events, p) && #[trigger] events[p].user_id == u && events[p].item_id == i
                && events[p].rating * RATING_STEP == v)
}

/// The error names the first event beyond the capacity.
pub open spec fn names_first_violation(
    e: OutOfRangeError,
    events: Seq<RatingEvent>,
    users: int,
    items: int,
) -> bool {
    &&& e.position < events.len()
    &&& !in_range(events[e.position as int], users, items)
    &&& forall|p: int| 0 <= p < e.position ==> in_range(#[trigger] events[p], users, items)
    &&& e.user_id == events[e.position as int].user_id
    &&& e.item_id == events[e.position as int].item_id
}

/// For each item below `items`, how many of the events rate it and what
/// their ratings add up to; every event counts, accepted or not.
pub fn item_totals(events: &Vec<RatingEvent>, items: usize) -> (totals: Vec<ItemTotal>)
    ensures
        totals@.len() == items,
        forall|j: int|
            0 <= j < items ==> (#[trigger] totals@[j]).count == rated_count(
                events@,
                j,
                events@.len() as int,
            ) && totals@[j].sum == rated_sum(events@, j, events@.len() as int),
{
    let mut totals: Vec<ItemTotal> = Vec::new();
    let mut j: usize = 0;
    while j < items
        invariant
            j <= items,
            totals@.len() == j,
            forall|x: int| 0 <= x < j ==> (#[trigger] totals@[x]).count == 0 && totals@[x].sum == 0,
        decreases items - j,
    {
        totals.push(ItemTotal { count: 0, sum: 0 });
        j += 1;
    }
    let mut p: usize = 0;
    while p < events.len()
        invariant
            p <= events@.len(),
            totals@.len() == items,
            forall|x: int|
                0 <= x < items ==> (#[trigger] totals@[x]).count == rated_count(events@, x, p as int)
                    && totals@[x].sum == rated_sum(events@, x, p as int) && totals@[x].count <= p
                    && totals@[x].sum <= 255 * p,
        decreases events@.len() - p,
    {
        let e = events[p];
        if e.item_id < items {
            let before = totals[e.item_id];
            totals.set(
                e.item_id,
                ItemTotal { count: before.count + 1, sum: before.sum + e.rating as u128 },
            );
        }
        p += 1;
    }
    totals
}

/// The rating store. Builds the `users` × `items` matrix of the events, and
/// the totals of the ratings by item.
///
/// An event whose user or item lies beyond the capacity fails the whole
/// batch; the error names the first such event. Where one user rates one item
/// several times, the last rating counts and the earlier ones are dropped, so
/// the matrix stores one value per accepted event. The totals count every
/// event.
pub fn get_matrix_and_ratings(events: &Vec<RatingEvent>, users: usize, items: usize) -> (r: Result<
    (RatingMatrix, Vec<ItemTotal>),
    OutOfRangeError,
>)
    requires
        users <= MAX_USERS,
        items <= MAX_ITEMS,
    ensures
        match r {
            Ok((m, totals)) => {
                &&& forall|p: int|
                    0 <= p < events@.len() ==> in_range(#[trigger] events@[p], users as int, items as int)
                &&& holds_events(m, events@, users as int, items as int)
                &&& totals@.len() == items
                &&& forall|j: int|
                    0 <= j < items ==> (#[trigger] totals@[j]).count == rated_count(
                        events@,
                        j,
                        events@.len() as int,
                    ) && totals@[j].sum == rated_sum(events@, j, events@.len() as int)
            },
            Err(e) => names_first_violation(e, events@, users as int, items as int),
        },
{
    match build_matrix(events, users, items) {
        Ok(matrix) => Ok((matrix, item_totals(events, items))),
        Err(e) => Err(e),
    }
}

/// The matrix of the events.
fn build_matrix(events: &Vec<RatingEvent>, users: usize, items: usize) -> (r: Result<
    RatingMatrix,
    OutOfRangeError,
>)
    requires
        users <= MAX_USERS,
        items <= MAX_ITEMS,
    ensures
        match r {
            Ok(m) => {
                &&& forall|p: int|
                    0 <= p < events@.len() ==> in_range(#[trigger] events@[p], users as int, items as int)
                &&& holds_events(m, events@, users as int, items as int)
            },
            Err(e) => names_first_violation(e, events@, users as int, items as int),
        },
{
    let n = events.len();
    let mut p: usize = 0;
    while p < n
        invariant
            n == events@.len(),
            p <= n,
            forall|q: int| 0 <= q < p ==> in_range(#[trigger] events@[q], users as int, items as int),
        decreases n - p,
    {
        let e = events[p];
        if e.user_id >= users || e.item_id >= items {
            return Err(OutOfRangeError { position: p, user_id: e.user_id, item_id: e.item_id });
        }
        p += 1;
    }
    // Position of the last event of each pair.
    let mut last: HashMap<u128, usize> = HashMap::new();
    p = 0;
    while p < n
        invariant
            n == events@.len(),
            p <= n,
            forall|q: int|
                0 <= q < p ==> last@.contains_key(pair_key(#[trigger] events@[q])) && q <= last@[pair_key(
                    events@[q],
                )],
            forall|k: u128| #[trigger]
                last@.contains_key(k) ==> last@[k] < p && pair_key(events@[last@[k] as int]) == k,
        decreases n - p,
    {
        let k = key_of(&events[p]);
        last.insert(k, p);
        p += 1;
    }
    let mut coo = coo_new(users, items);
    let ghost mut src: Seq<int> = Seq::empty();
    p = 0;
    while p < n
        invariant
            n == events@.len(),
            p <= n,
            forall|q: int| 0 <= q < n ==> in_range(#[trigger] events@[q], users as int, items as int),
            forall|q: int|
                0 <= q < n ==> last@.contains_key(pair_key(#[trigger] events@[q])) && q <= last@[pair_key(
                    events@[q],
                )],
            forall|k: u128| #[trigger]
                last@.contains_key(k) ==> last@[k] < n && pair_key(events@[last@[k] as int]) == k,
            coo_shape(coo) == (users as int, items as int),
            coo_triplets(coo).len() == src.len(),
            src.len() == accepted_count(events@, p as int),
            forall|t: int|
                0 <= t < src.len() ==> 0 <= #[trigger] src[t] < p && accepted(events@, src[t])
                    && coo_triplets(coo)[t] == (
                    events@[src[t]].user_id as int,
                    events@[src[t]].item_id as int,
                    events@[src[t]].rating * RATING_STEP,
                ),
            forall|s: int, t: int| 0 <= s < t < src.len() ==> #[trigger] src[s] < #[trigger] src[t],
            forall|q: int| 0 <= q < p && accepted(events@, q) ==> src.contains(q),
        decreases n - p,
    {
        let e = events[p];
        let k = key_of(&e);
        let is_last = match last.get(&k) {
            Some(pos) => *pos == p,
            None => false,
        };
        proof {
            let lp = last@[k] as int;
            assert(last@.contains_key(pair_key(events@[p as int])));
            if is_last {
                assert forall|q: int| p < q < events@.len() implies !same_pair(
                    events@[p as int],
                    #[trigger] events@[q],
                ) by {
                    lemma_pair_key(events@[p as int], events@[q]);
                }
                assert(accepted(events@, p as int));
            } else {
                assert(pair_key(events@[lp]) == k);
                assert(lp > p);
                lemma_pair_key(events@[p as int], events@[lp]);
                assert(!accepted(events@, p as int));
            }
        }
        if is_last {
            let ghost before = src;
            coo_push(&mut coo, e.user_id, e.item_id, (e.rating as i128) * 1_000_000);
            proof {
                src = src.push(p as int);
                assert forall|q: int| 0 <= q < p + 1 && accepted(events@, q) implies src.contains(
                    q,
                ) by {
                    if q < p {
                        assert(before.contains(q));
                        let t = choose|t: int| 0 <= t < before.len() && before[t] == q;
                        assert(src[t] == q);
                    } else {
                        assert(src[before.len() as int] == q);
                    }
                }
            }
        } else {
            proof {
                assert forall|q: int| 0 <= q < p + 1 && accepted(events@, q) implies src.contains(
                    q,
                ) by {}
            }
        }
        p += 1;
    }
    proof {
        let t = coo_triplets(coo);
        assert forall|a: int, b: int| 0 <= a < b < t.len() implies !((#[trigger] t[a]).0 == (
            #[trigger] t[b]).0 && t[a].1 == t[b].1) by {
            assert(src[a] < src[b]);
            assert(accepted(events@, src[a]));
            if t[a].0 == t[b].0 && t[a].1 == t[b].1 {
                assert(same_pair(events@[src[a]], events@[src[b]]));
            }
        }
        assert(distinct_positions(t));
    }
    let csr = csr_from_coo(&coo);
    let m = RatingMatrix::from_csr(csr);
    proof {
        let t = coo_triplets(coo);
        assert forall|u: int, i: int, v: int| 0 <= u < users implies (#[trigger] m@[u].contains(
            (i, v),
        ) <==> exists|q: int|
            accepted(events@, q) && #[trigger] events@[q].user_id == u && events@[q].item_id == i
                && events@[q].rating * RATING_STEP == v) by {
            assert(m@[u].contains((i, v)) <==> t.contains((u, i, v)));
            if t.contains((u, i, v)) {
                let x = choose|x: int| 0 <= x < t.len() && t[x] == (u, i, v);
                let q = src[x];
                assert(accepted(events@, q) && events@[q].user_id == u && events@[q].item_id == i
                    && events@[q].rating * RATING_STEP == v);
            }
            if exists|q: int|
                accepted(events@, q) && #[trigger] events@[q].user_id == u && events@[q].item_id
                    == i && events@[q].rating * RATING_STEP == v {
                let q = choose|q: int|
                    accepted(events@, q) && #[trigger] events@[q].user_id == u
                        && events@[q].item_id == i && events@[q].rating * RATING_STEP == v;
                assert(src.contains(q));
                let x = choose|x: int| 0 <= x < src.len() && src[x] == q;
                assert(t[x] == (u, i, v));
            }
        }
        assert forall|u: int| 0 <= u < m@.len() implies row_bounded(
            #[trigger] m@[u],
            MAX_RATING as int,
        ) && row_nonnegative(m@[u]) by {
            assert forall|x: int| 0 <= x < m@[u].len() implies 0 <= (#[trigger] m@[u][x]).1
                <= 255_000_000 by {
                let entry = m@[u][x];
                assert(m@[u].contains((entry.0, entry.1)));
                assert(t.contains((u, entry.0, entry.1)));
                let y = choose|y: int| 0 <= y < t.len() && t[y] == (u, entry.0, entry.1);
                assert(entry.1 == events@[src[y]].rating * RATING_STEP);
            }
        }
    }
    Ok(m)
}

} // verus!
