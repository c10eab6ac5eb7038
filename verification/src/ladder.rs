//! The ladder of a lockout: the ratings of its problems and what each
//! problem is worth.

use vstd::prelude::*;

verus! {

/// The highest rating that a problem is asked for.
pub const MAX_RATING: u32 = 3500;

/// The lowest rating that a problem is asked for.
pub const MIN_RATING: u32 = 800;

/// What the first problem of a ladder is worth.
pub const BASE_POINTS: u32 = 100;

/// The rating of step `i` of a ladder of `n` steps around `rating`: the
/// middle step has `rating` itself; each step below it is `increment` lower,
/// not below [`MIN_RATING`]; each step above it is `increment` higher, not
/// above [`MAX_RATING`].
pub open spec fn ladder_rating(n: int, rating: u32, increment: u32, i: int) -> int {
    let mid = n / 2;
    if i == mid {
        rating as int
    } else if i < mid {
        if rating - (mid - i) * increment >= MIN_RATING {
            rating - (mid - i) * increment
        } else {
            MIN_RATING as int
        }
    } else {
        if rating + (i - mid) * increment <= MAX_RATING {
            rating + (i - mid) * increment
        } else {
            MAX_RATING as int
        }
    }
}

/// The ratings of a ladder of `number_of_problems` steps around
/// `lockout_rating`.
pub fn create_ratings_array(number_of_problems: u32, lockout_rating: u32, lockout_increment: u32) -> (r:
    Vec<u32>)
    ensures
        r.len() == number_of_problems,
        forall|i: int|
            0 <= i < r.len() ==> #[trigger] r[i] == ladder_rating(
                number_of_problems as int,
                lockout_rating,
                lockout_increment,
                i,
            ),
{
    let n = number_of_problems as usize;
    let mut r: Vec<u32> = Vec::new();
    let mut z: usize = 0;
    while z < n
        invariant
            z <= n,
            r.len() == z,
        decreases n - z,
    {
        r.push(0);
        z += 1;
    }
    if n == 0 {
        return r;
    }
    let mid = n / 2;
    r.set(mid, lockout_rating);
    let mut current = lockout_rating;
    let mut i = mid;
    while i > 0
        invariant
            n == number_of_problems,
            mid == n / 2,
            mid < n,
            i <= mid,
            r.len() == n,
            current == ladder_rating(n as int, lockout_rating, lockout_increment, i as int),
            forall|j: int|
                i <= j <= mid ==> #[trigger] r[j] == ladder_rating(
                    n as int,
                    lockout_rating,
                    lockout_increment,
                    j,
                ),
        decreases i,
    {
        let lowered = if current >= lockout_increment {
            current - lockout_increment
        } else {
            0
        };
        let next = if lowered >= MIN_RATING {
            lowered
        } else {
            MIN_RATING
        };
        proof {
            let k = mid - i;
            assert((k + 1) * lockout_increment == k * lockout_increment + lockout_increment)
                by (nonlinear_arith);
            assert(k * lockout_increment >= 0) by (nonlinear_arith)
                requires
                    k >= 0,
            ;
            assert(k == 0 ==> k * lockout_increment == 0) by (nonlinear_arith);
            assert((mid - (i - 1)) * lockout_increment == (k + 1) * lockout_increment);
        }
        i -= 1;
        current = next;
        r.set(i, current);
    }
    current = lockout_rating;
    let mut i = mid + 1;
    while i < n
        invariant
            n == number_of_problems,
            mid == n / 2,
            mid < i <= n,
            r.len() == n,
            current == ladder_rating(n as int, lockout_rating, lockout_increment, i - 1),
            forall|j: int|
                0 <= j < i ==> #[trigger] r[j] == ladder_rating(
                    n as int,
                    lockout_rating,
                    lockout_increment,
                    j,
                ),
        decreases n - i,
    {
        let raised = if current <= u32::MAX - lockout_increment {
            current + lockout_increment
        } else {
            u32::MAX
        };
        let next = if raised <= MAX_RATING {
            raised
        } else {
            MAX_RATING
        };
        proof {
            let k = i - 1 - mid;
            assert((k + 1) * lockout_increment == k * lockout_increment + lockout_increment)
                by (nonlinear_arith);
            assert(k * lockout_increment >= 0) by (nonlinear_arith)
                requires
                    k >= 0,
            ;
            assert(k == 0 ==> k * lockout_increment == 0) by (nonlinear_arith);
            assert((i - mid) * lockout_increment == (k + 1) * lockout_increment);
        }
        current = next;
        r.set(i, current);
        i += 1;
    }
    r
}

/// What step `i` of a ladder with the given ratings is worth: as much above
/// [`BASE_POINTS`] as its rating is above that of the first step.
pub open spec fn step_points(ratings: Seq<u32>, i: int) -> int {
    ratings[i] - ratings[0] + BASE_POINTS
}

/// The point values of a ladder with the given ratings, where each of them
/// is positive and fits the score type, and all of them together do.
pub open spec fn has_points(ratings: Seq<u32>) -> bool {
    &&& forall|i: int| 0 <= i < ratings.len() ==> 0 < #[trigger] step_points(ratings, i) <= u32::MAX
    &&& total_points(ratings, ratings.len() as int) <= u32::MAX
}

/// The sum of the point values of the first `n` steps.
pub open spec fn total_points(ratings: Seq<u32>, n: int) -> int
    decreases n,
{
    if n <= 0 {
        0
    } else {
        total_points(ratings, n - 1) + step_points(ratings, n - 1)
    }
}

/// The point values of a ladder with the given ratings.
pub fn ladder_points(ratings: &Vec<u32>) -> (r: Option<Vec<u32>>)
    ensures
        match r {
            Some(points) => {
                &&& has_points(ratings@)
                &&& points.len() == ratings.len()
                &&& forall|i: int|
                    0 <= i < points.len() ==> #[trigger] points[i] == step_points(ratings@, i)
                &&& crate::tally::total(points@) == total_points(ratings@, ratings.len() as int)
            },
            None => !has_points(ratings@),
        },
{
    let mut points: Vec<u32> = Vec::new();
    let mut sum: u64 = 0;
    let mut i: usize = 0;
    while i < ratings.len()
        invariant
            i <= ratings.len(),
            points.len() == i,
            forall|j: int| 0 <= j < i ==> 0 < #[trigger] step_points(ratings@, j) <= u32::MAX,
            forall|j: int| 0 <= j < i ==> #[trigger] points[j] == step_points(ratings@, j),
            sum == total_points(ratings@, i as int),
            sum == crate::tally::total(points@),
            sum <= u32::MAX,
        decreases ratings.len() - i,
    {
        let worth: u64 = ratings[i] as u64 + BASE_POINTS as u64;
        let first: u64 = ratings[0] as u64;
        if worth <= first || worth - first > u32::MAX as u64 {
            assert(!(0 < step_points(ratings@, i as int) <= u32::MAX));
            return None;
        }
        let value = (worth - first) as u32;
        if sum + value as u64 > u32::MAX as u64 {
            proof {
                lemma_total_points_grows(ratings@, i as int + 1, ratings.len() as int);
            }
            return None;
        }
        proof {
            crate::tally::lemma_total_push(points@, value);
        }
        points.push(value);
        sum = sum + value as u64;
        i += 1;
    }
    Some(points)
}

/// With positive point values, the sum over more steps is no smaller.
proof fn lemma_total_points_grows(ratings: Seq<u32>, a: int, b: int)
    requires
        0 <= a <= b <= ratings.len(),
    ensures
        (forall|i: int| 0 <= i < ratings.len() ==> 0 < #[trigger] step_points(ratings, i))
            ==> total_points(ratings, a) <= total_points(ratings, b),
    decreases b - a,
{
    if a < b {
        lemma_total_points_grows(ratings, a, b - 1);
        if forall|i: int| 0 <= i < ratings.len() ==> 0 < #[trigger] step_points(ratings, i) {
            assert(0 < step_points(ratings, b - 1));
        }
    }
}
} // verus!
