//! Random walks over user records: from a record the walk either jumps to
//! any record or follows one of its neighbours, records that are alike in
//! age, gender and time spent.

use vstd::prelude::*;

verus! {

/// The generator of `rand` that is local to the thread. Nothing is known of
/// its state.
#[verifier::external_type_specification]
#[verifier::external_body]
pub struct ExThreadRng(rand::rngs::ThreadRng);

/// `rand::thread_rng` hands out the thread's generator. Nothing is claimed of it.
pub assume_specification[ rand::thread_rng ]() -> (rng: rand::rngs::ThreadRng);

/// Draws a number with `rand::Rng::gen_range` from the range `0..bound`.
/// Trusted: the number drawn lies in that range. Which one it is changes
/// from call to call. An empty range is left out, as `gen_range` panics on it.
#[verifier::external_body]
fn random_below(rng: &mut rand::rngs::ThreadRng, bound: usize) -> (r: usize)
    requires
        bound > 0,
    ensures
        r < bound,
{
    rand::Rng::gen_range(rng, 0..bound)
}

/// The number of outcomes of the draw that decides between jumping and
/// following.
pub const ROLLS: usize = 100;

/// Of those outcomes, so many are jumps: the ones below this number.
pub const JUMP_PERCENT: usize = 10;

/// The number of walks that start from each record.
pub const WALKS_PER_START: usize = 100;

/// The number of steps of each walk.
pub const STEPS_PER_WALK: usize = 100;

/// One user's record.
#[derive(Clone, Debug, PartialEq, Eq, Hash)]
pub struct UserData {
    pub age: i32,
    pub gender: String,
    pub time_spent: i32,
    pub platform: String,
    pub interests: String,
    pub profession: String,
    pub income: i32,
}

/// The two records agree in every field.
pub open spec fn same_user(a: UserData, b: UserData) -> bool {
    &&& a.age == b.age
    &&& a.gender@ == b.gender@
    &&& a.time_spent == b.time_spent
    &&& a.platform@ == b.platform@
    &&& a.interests@ == b.interests@
    &&& a.profession@ == b.profession@
    &&& a.income == b.income
}

/// The absolute difference of two numbers.
pub open spec fn gap(a: i32, b: i32) -> int {
    if a >= b {
        a - b
    } else {
        b - a
    }
}

/// `other` is a neighbour of `user`: of the same gender, at most ten years
/// apart in age and at most five apart in time spent. Every record is its
/// own neighbour.
pub open spec fn is_neighbor(user: UserData, other: UserData) -> bool {
    &&& gap(user.age, other.age) <= 10
    &&& user.gender@ == other.gender@
    &&& gap(user.time_spent, other.time_spent) <= 5
}

/// The positions in `data` of the neighbours of `user`, in ascending order.
pub open spec fn neighbor_indices(user: UserData, data: Seq<UserData>) -> Seq<usize>
    decreases data.len(),
{
    if data.len() == 0 {
        Seq::<usize>::empty()
    } else {
        let rest = neighbor_indices(user, data.drop_last());
        if is_neighbor(user, data.last()) {
            rest.push((data.len() - 1) as usize)
        } else {
            rest
        }
    }
}

/// `j` is the last position in `data` of a record equal to the one at `i`.
pub open spec fn is_last_equal(data: Seq<UserData>, i: int, j: int) -> bool {
    &&& 0 <= i <= j < data.len()
    &&& same_user(data[j], data[i])
    &&& forall|k: int| j < k < data.len() ==> !same_user(#[trigger] data[k], data[i])
}

/// `map` sends every position of `data` to the last position of an equal record.
pub open spec fn is_user_map(data: Seq<UserData>, map: Seq<usize>) -> bool {
    &&& map.len() == data.len()
    &&& forall|i: int| 0 <= i < data.len() ==> is_last_equal(data, i, #[trigger] map[i] as int)
}

/// The positions of neighbours are positions of `data`.
pub proof fn lemma_neighbor_indices_in_range(user: UserData, data: Seq<UserData>)
    requires
        data.len() <= usize::MAX,
    ensures
        neighbor_indices(user, data).len() <= data.len(),
        forall|k: int|
            0 <= k < neighbor_indices(user, data).len() ==> {
                &&& (#[trigger] neighbor_indices(user, data)[k]) < data.len()
                &&& is_neighbor(user, data[neighbor_indices(user, data)[k] as int])
            },
    decreases data.len(),
{
    if data.len() > 0 {
        let rest = data.drop_last();
        lemma_neighbor_indices_in_range(user, rest);
        assert forall|k: int| 0 <= k < neighbor_indices(user, data).len() implies {
            &&& (#[trigger] neighbor_indices(user, data)[k]) < data.len()
            &&& is_neighbor(user, data[neighbor_indices(user, data)[k] as int])
        } by {
            if k < neighbor_indices(user, rest).len() {
                let i = neighbor_indices(user, rest)[k];
                assert(neighbor_indices(user, data)[k] == i);
                assert(rest[i as int] == data[i as int]);
            }
        }
    }
}

/// Whether two records agree in every field.
pub fn same_as(a: &UserData, b: &UserData) -> (r: bool)
    ensures
        r == same_user(*a, *b),
{
    a.age == b.age && a.gender == b.gender && a.time_spent == b.time_spent && a.platform
        == b.platform && a.interests == b.interests && a.profession == b.profession && a.income
        == b.income
}

/// Whether two numbers are at most `limit` apart.
fn within(a: i32, b: i32, limit: i64) -> (r: bool)
    ensures
        r == (gap(a, b) <= limit),
{
    let d: i64 = a as i64 - b as i64;
    if d >= 0 {
        d <= limit
    } else {
        -d <= limit
    }
}

/// The positions in `data` of the neighbours of `user`, in ascending order.
pub fn find_neighbors(user: &UserData, data: &[UserData]) -> (neighbors: Vec<usize>)
    ensures
        neighbors@ == neighbor_indices(*user, data@),
{
    let mut neighbors: Vec<usize> = Vec::new();
    let mut i: usize = 0;
    while i < data.len()
        invariant
            i <= data@.len(),
            neighbors@ == neighbor_indices(*user, data@.take(i as int)),
        decreases data@.len() - i,
    {
        proof {
            let next = data@.take(i + 1);
            assert(next.drop_last() =~= data@.take(i as int));
            assert(next.last() == data@[i as int]);
        }
        let other_user = &data[i];
        if within(user.age, other_user.age, 10) && user.gender == other_user.gender && within(
            user.time_spent,
            other_user.time_spent,
            5,
        ) {
            neighbors.push(i);
        }
        i += 1;
    }
    proof {
        assert(data@.take(data@.len() as int) =~= data@);
    }
    neighbors
}

/// For every position of `data`, the last position of an equal record.
pub fn map_users_to_indices(data: &[UserData]) -> (user_index_map: Vec<usize>)
    ensures
        is_user_map(data@, user_index_map@),
{
    let n = data.len();
    let mut user_index_map: Vec<usize> = Vec::new();
    let mut i: usize = 0;
    while i < n
        invariant
            i <= n,
            n == data@.len(),
            user_index_map@.len() == i,
            forall|a: int| 0 <= a < i ==> is_last_equal(data@, a, #[trigger] user_index_map@[a] as int),
        decreases n - i,
    {
        let mut last: usize = i;
        let mut k: usize = i + 1;
        while k < n
            invariant
                i < n,
                n == data@.len(),
                i <= last < k <= n,
                same_user(data@[last as int], data@[i as int]),
                forall|m: int| last < m < k ==> !same_user(#[trigger] data@[m], data@[i as int]),
            decreases n - k,
        {
            if same_as(&data[k], &data[i]) {
                last = k;
            }
            k += 1;
        }
        user_index_map.push(last);
        i += 1;
    }
    user_index_map
}

/// Whether a draw from `0..100` makes the walk jump.
pub fn is_jump(roll: usize) -> (jump: bool)
    ensures
        jump == (roll < JUMP_PERCENT),
{
    roll < JUMP_PERCENT
}

/// Where the walk goes when it follows a neighbour: it stays at `current`
/// where there are no neighbours, and else goes to the record that the map
/// gives for the neighbour at position `pick` of the list.
pub fn follow_neighbor(
    current: usize,
    neighbors: &Vec<usize>,
    user_map: &Vec<usize>,
    pick: usize,
) -> (next: usize)
    requires
        neighbors@.len() > 0 ==> pick < neighbors@.len() && neighbors@[pick as int] < user_map@.len(),
    ensures
        next == if neighbors@.len() == 0 {
            current
        } else {
            user_map@[neighbors@[pick as int] as int]
        },
{
    if neighbors.len() == 0 {
        current
    } else {
        user_map[neighbors[pick]]
    }
}

/// The numbers that a step may draw: `roll` decides between jumping and
/// following and comes from `0..100`; `draw` picks the target. After a roll
/// that jumps it is a position of `data`, after one that follows a position
/// in the list of the current record's neighbours, and zero where that list
/// is empty and nothing is drawn.
pub open spec fn may_draw(data: Seq<UserData>, current: int, roll: usize, draw: usize) -> bool {
    let neighbors = neighbor_indices(data[current], data);
    &&& roll < ROLLS
    &&& if roll < JUMP_PERCENT {
        draw < data.len()
    } else if neighbors.len() == 0 {
        draw == 0
    } else {
        draw < neighbors.len()
    }
}

/// Where a step from `current` leads once the numbers are drawn: to the
/// record at `draw` after a roll that jumps; else to the record that the map
/// gives for the neighbour at position `draw` of the current record's
/// neighbours, and nowhere where it has none.
pub open spec fn step_of(
    data: Seq<UserData>,
    user_map: Seq<usize>,
    current: int,
    roll: usize,
    draw: usize,
) -> usize {
    let neighbors = neighbor_indices(data[current], data);
    if roll < JUMP_PERCENT {
        draw
    } else if neighbors.len() == 0 {
        current as usize
    } else {
        user_map[neighbors[draw as int] as int]
    }
}

/// Whatever is drawn, a step ends at a record of `data`.
pub proof fn lemma_step_in_range(
    data: Seq<UserData>,
    user_map: Seq<usize>,
    current: int,
    roll: usize,
    draw: usize,
)
    requires
        0 <= current < data.len() <= usize::MAX,
        is_user_map(data, user_map),
        may_draw(data, current, roll, draw),
    ensures
        step_of(data, user_map, current, roll, draw) < data.len(),
{
    let neighbors = neighbor_indices(data[current], data);
    lemma_neighbor_indices_in_range(data[current], data);
    if roll >= JUMP_PERCENT && neighbors.len() > 0 {
        let i = neighbors[draw as int] as int;
        assert(is_last_equal(data, i, user_map[i] as int));
    }
}

/// One step of the walk from the record at `current`.
///
/// A number is drawn from `0..100`. If it is below ten the walk jumps to a
/// record drawn from all of `data`. Otherwise it follows a neighbour of the
/// current record, drawn from its neighbours, and stays where it is if
/// there is none. The result is what `step_of` gives for the numbers drawn,
/// and so a record of `data`.
pub fn pagerank(current: usize, data: &[UserData], user_map: &Vec<usize>) -> (next: usize)
    requires
        current < data@.len(),
        is_user_map(data@, user_map@),
    ensures
        next < data@.len(),
        exists|roll: usize, draw: usize|
            may_draw(data@, current as int, roll, draw) && next == #[trigger] step_of(
                data@,
                user_map@,
                current as int,
                roll,
                draw,
            ),
{
    let mut rng = rand::thread_rng();
    let random_num = random_below(&mut rng, ROLLS);
    let ghost drawn: usize;
    let next = if is_jump(random_num) {
        let random_index = random_below(&mut rng, data.len());
        proof {
            drawn = random_index;
        }
        random_index
    } else {
        let neighbors = find_neighbors(&data[current], data);
        if neighbors.len() == 0 {
            proof {
                drawn = 0;
            }
            follow_neighbor(current, &neighbors, user_map, 0)
        } else {
            let random_neighbor_index = random_below(&mut rng, neighbors.len());
            proof {
                drawn = random_neighbor_index;
                lemma_neighbor_indices_in_range(data@[current as int], data@);
            }
            follow_neighbor(current, &neighbors, user_map, random_neighbor_index)
        }
    };
    proof {
        assert(may_draw(data@, current as int, random_num, drawn));
        assert(next == step_of(data@, user_map@, current as int, random_num, drawn));
        lemma_step_in_range(data@, user_map@, current as int, random_num, drawn);
    }
    next
}

/// The sum of the counts.
pub open spec fn count_sum(s: Seq<u128>) -> nat
    decreases s.len(),
{
    if s.len() == 0 {
        0
    } else {
        count_sum(s.drop_last()) + s.last() as nat
    }
}

/// No count is larger than the sum of all, and raising one count by `d`
/// raises the sum by `d`.
proof fn lemma_count_sum_update(s: Seq<u128>, i: int, x: u128)
    requires
        0 <= i < s.len(),
    ensures
        s[i] <= count_sum(s),
        count_sum(s.update(i, x)) == count_sum(s) - s[i] + x,
    decreases s.len(),
{
    if i == s.len() - 1 {
        assert(s.update(i, x).drop_last() =~= s.drop_last());
    } else {
        lemma_count_sum_update(s.drop_last(), i, x);
        assert(s.update(i, x).drop_last() =~= s.drop_last().update(i, x));
    }
}

/// Walks from every record and counts where the walks end.
///
/// From each record of `data` a hundred walks of a hundred steps each are
/// made, each starting where the one before it ended, the first at the
/// record itself. The result holds, for every record, the number of walks
/// that ended there: as many counts as records, a hundred walks for each.
pub fn walks(data: &Vec<UserData>) -> (final_destination: Vec<u128>)
    ensures
        final_destination@.len() == data@.len(),
        count_sum(final_destination@) == WALKS_PER_START * data@.len(),
{
    let n = data.len();
    let mut final_destination: Vec<u128> = Vec::new();
    let mut i: usize = 0;
    while i < n
        invariant
            i <= n,
            final_destination@.len() == i,
            count_sum(final_destination@) == 0,
        decreases n - i,
    {
        proof {
            assert(final_destination@.push(0u128).drop_last() =~= final_destination@);
        }
        final_destination.push(0);
        i += 1;
    }
    let user_map = map_users_to_indices(data.as_slice());
    let mut start: usize = 0;
    while start < n
        invariant
            start <= n,
            n == data@.len(),
            is_user_map(data@, user_map@),
            final_destination@.len() == n,
            count_sum(final_destination@) == WALKS_PER_START * start,
        decreases n - start,
    {
        let mut location = start;
        let mut walk: usize = 0;
        while walk < WALKS_PER_START
            invariant
                start < n,
                n == data@.len(),
                location < n,
                walk <= WALKS_PER_START,
                is_user_map(data@, user_map@),
                final_destination@.len() == n,
                count_sum(final_destination@) == WALKS_PER_START * start + walk,
            decreases WALKS_PER_START - walk,
        {
            let mut step: usize = 0;
            while step < STEPS_PER_WALK
                invariant
                    n == data@.len(),
                    location < n,
                    step <= STEPS_PER_WALK,
                    is_user_map(data@, user_map@),
                decreases STEPS_PER_WALK - step,
            {
                location = pagerank(location, data.as_slice(), &user_map);
                step += 1;
            }
            proof {
                lemma_count_sum_update(
                    final_destination@,
                    location as int,
                    (final_destination@[location as int] + 1) as u128,
                );
            }
            let count = final_destination[location];
            final_destination.set(location, count + 1);
            walk += 1;
        }
        start += 1;
    }
    final_destination
}

} // verus!
