use vstd::prelude::*;
use vstd::arithmetic::power2::pow2;
use vstd::multiset::Multiset;
use rand::Rng;

use crate::text::{decimal, decimal_chars, string_of};

verus! {

// ---------------------------------------------------------------------------
// Team size and number of teams
// ---------------------------------------------------------------------------
/// The number of binary digits of `n` (0 for 0).
pub open spec fn bit_length(n: nat) -> nat
    decreases n,
{
    if n == 0 {
        0
    } else {
        1 + bit_length(n / 2)
    }
}

/// The number of teams a group of `n` members is split into.
pub open spec fn team_count(n: nat) -> nat {
    n / bit_length(n)
}

/// The size of the teams for a group of `members` members:
/// `floor(log2(2 * members))`, that is the number of binary digits of
/// `members` (0 for an empty group), computed exactly on integers.
/// A computation in single-precision floating point,
/// `(members as f32 * 2.0).log2().floor()`, rounds and can give one more for
/// groups above about a million members (for 2^21 - 1 members it gives 22
/// where the exact value is 21); below that the two agree.
pub fn team_size(members: usize) -> (res: usize)
    ensures
        res == bit_length(members as nat),
{
    proof {
        lemma_bit_length_le(members as nat);
    }
    let mut m = members;
    let mut bits: usize = 0;
    while m > 0
        invariant
            bits + bit_length(m as nat) == bit_length(members as nat),
            bit_length(members as nat) <= members,
        decreases m,
    {
        assert(bit_length(m as nat) == 1 + bit_length((m / 2) as nat));
        m = m / 2;
        bits = bits + 1;
    }
    bits
}

/// A number has no more binary digits than its value.
pub proof fn lemma_bit_length_le(n: nat)
    ensures
        bit_length(n) <= n,
        n >= 1 ==> bit_length(n) >= 1,
    decreases n,
{
    if n > 0 {
        lemma_bit_length_le(n / 2);
    }
}

/// The team size is `floor(log2(2n))`: `2^(size-1) <= n < 2^size`.
pub proof fn lemma_team_size_is_log2(n: nat)
    requires
        n >= 1,
    ensures
        pow2((bit_length(n) - 1) as nat) <= n < pow2(bit_length(n)),
    decreases n,
{
    if n == 1 {
        assert(bit_length(0) == 0);
        assert(bit_length(1) == 1);
        vstd::arithmetic::power::lemma_pow0(2);
        vstd::arithmetic::power2::lemma_pow2(0);
        vstd::arithmetic::power2::lemma_pow2_unfold(1);
    } else {
        let h = n / 2;
        lemma_team_size_is_log2(h);
        lemma_bit_length_le(h);
        let b = bit_length(h);
        assert(bit_length(n) == 1 + b);
        vstd::arithmetic::power2::lemma_pow2_unfold(b);
        vstd::arithmetic::power2::lemma_pow2_unfold(b + 1);
        assert(pow2(b) == 2 * pow2((b - 1) as nat));
        assert(pow2((b + 1) as nat) == 2 * pow2(b));
    }
}

/// A non-empty group gets at least one team, of at least one member.
pub proof fn lemma_team_count_positive(n: nat)
    requires
        n >= 1,
    ensures
        1 <= bit_length(n) <= n,
        team_count(n) >= 1,
{
    lemma_bit_length_le(n);
    assert(n / bit_length(n) >= 1) by (nonlinear_arith)
        requires
            1 <= bit_length(n) <= n,
    ;
}

// ---------------------------------------------------------------------------
// Drawing members and dealing them into teams
// ---------------------------------------------------------------------------
/// Draws are valid for a pool of `n`: the `i`-th draw picks one of the
/// `n - i` members that are left.
pub open spec fn valid_draws(draws: Seq<usize>, n: nat) -> bool {
    draws.len() == n && forall|i: int| 0 <= i < n ==> #[trigger] draws[i] < n - i
}

/// The members in the order the draws take them out of `pool`.
pub open spec fn drawn<T>(pool: Seq<T>, draws: Seq<usize>) -> Seq<T>
    decreases draws.len(),
{
    if draws.len() == 0 {
        Seq::<T>::empty()
    } else {
        seq![pool[draws[0] as int]] + drawn(pool.remove(draws[0] as int), draws.drop_first())
    }
}

/// `order` dealt into `count` teams: the `i`-th member joins team `i % count`.
pub open spec fn deal<T>(order: Seq<T>, count: nat) -> Seq<Seq<T>>
    decreases order.len(),
{
    if order.len() == 0 {
        Seq::new(count, |g: int| Seq::<T>::empty())
    } else {
        let prev = deal(order.drop_last(), count);
        let g = (order.len() - 1) % (count as int);
        prev.update(g, prev[g].push(order.last()))
    }
}

/// The teams for a group drawn in the order `draws` gives.
pub open spec fn teams<T>(members: Seq<T>, draws: Seq<usize>) -> Seq<Seq<T>> {
    deal(drawn(members, draws), team_count(members.len()))
}

/// Teams, seen as sequences.
pub open spec fn teams_view<T>(groups: Seq<Vec<T>>) -> Seq<Seq<T>> {
    groups.map_values(|v: Vec<T>| v@)
}

pub proof fn lemma_deal_len<T>(order: Seq<T>, count: nat)
    requires
        count >= 1,
    ensures
        deal(order, count).len() == count,
    decreases order.len(),
{
    if order.len() > 0 {
        lemma_deal_len(order.drop_last(), count);
    }
}

/// Splits `members` into teams, taking them out in the order that `draws`
/// gives and dealing them round the teams in turn.
pub fn assign_teams<T>(members: Vec<T>, draws: &Vec<usize>) -> (res: Vec<Vec<T>>)
    requires
        members@.len() >= 1,
        valid_draws(draws@, members@.len()),
    ensures
        teams_view(res@) == teams(members@, draws@),
{
    let n = members.len();
    let size = team_size(n);
    proof {
        lemma_team_count_positive(n as nat);
    }
    let count = n / size;
    let ghost all = drawn(members@, draws@);
    let mut groups: Vec<Vec<T>> = Vec::new();
    let mut g: usize = 0;
    while g < count
        invariant
            g <= count,
            groups@.len() == g,
            forall|k: int| 0 <= k < g ==> #[trigger] groups@[k]@ == Seq::<T>::empty(),
        decreases count - g,
    {
        groups.push(Vec::new());
        g = g + 1;
    }
    assert(teams_view(groups@) =~= deal(Seq::<T>::empty(), count as nat));
    let mut pool = members;
    let ghost mut order: Seq<T> = Seq::empty();
    let mut i: usize = 0;
    assert(draws@.skip(0) =~= draws@);
    assert(all =~= order + drawn(pool@, draws@.skip(0)));
    while i < n
        invariant
            i <= n,
            n == draws@.len(),
            count >= 1,
            count == team_count(n as nat),
            valid_draws(draws@, n as nat),
            pool@.len() == n - i,
            order.len() == i,
            all == order + drawn(pool@, draws@.skip(i as int)),
            teams_view(groups@) == deal(order, count as nat),
            groups@.len() == count,
        decreases n - i,
    {
        let j = draws[i];
        let ghost rest = draws@.skip(i as int);
        assert(rest[0] == j);
        assert(rest.drop_first() =~= draws@.skip(i + 1));
        let ghost old_pool = pool@;
        let x = pool.remove(j);
        let t = i % count;
        let ghost old_groups = teams_view(groups@);
        let mut team = groups.remove(t);
        team.push(x);
        groups.insert(t, team);
        proof {
            assert(all =~= (order.push(x)) + drawn(pool@, draws@.skip(i + 1)));
            let new_order = order.push(x);
            assert(new_order.drop_last() =~= order);
            assert(new_order.last() == x);
            assert(deal(new_order, count as nat) == old_groups.update(t as int, old_groups[t as int].push(x)));
            order = new_order;
            assert(teams_view(groups@) =~= old_groups.update(t as int, old_groups[t as int].push(x)));
        }
        i = i + 1;
    }
    proof {
        assert(draws@.skip(n as int) =~= Seq::<usize>::empty());
        assert(all =~= order);
    }
    groups
}

// ---------------------------------------------------------------------------
// What every split into teams keeps
// ---------------------------------------------------------------------------
/// All members of all teams, counted with multiplicity.
pub open spec fn members_of<T>(groups: Seq<Seq<T>>) -> Multiset<T>
    decreases groups.len(),
{
    if groups.len() == 0 {
        Multiset::empty()
    } else {
        members_of(groups.drop_last()).add(groups.last().to_multiset())
    }
}

/// Drawing every member of a pool once takes out each member exactly once:
/// the drawn order is a permutation of the pool.
pub proof fn lemma_drawn_is_permutation<T>(pool: Seq<T>, draws: Seq<usize>)
    requires
        valid_draws(draws, pool.len()),
    ensures
        drawn(pool, draws).to_multiset() == pool.to_multiset(),
    decreases draws.len(),
{
    broadcast use vstd::seq_lib::group_to_multiset_ensures;
    broadcast use vstd::multiset::group_multiset_axioms;

    if draws.len() == 0 {
        assert(pool.len() == 0);
        assert(pool =~= Seq::<T>::empty());
    } else {
        let j = draws[0] as int;
        let rest = pool.remove(j);
        assert(valid_draws(draws.drop_first(), rest.len())) by {
            assert forall|i: int| 0 <= i < rest.len() implies #[trigger] draws.drop_first()[i] < rest.len() - i by {
                assert(draws.drop_first()[i] == draws[i + 1]);
            }
        }
        lemma_drawn_is_permutation(rest, draws.drop_first());
        vstd::seq_lib::lemma_multiset_commutative(seq![pool[j]], drawn(rest, draws.drop_first()));
        assert(seq![pool[j]].to_multiset() =~= Multiset::empty().insert(pool[j])) by {
            assert(Seq::<T>::empty().push(pool[j]) =~= seq![pool[j]]);
        }
        assert(drawn(pool, draws).to_multiset() =~= rest.to_multiset().insert(pool[j]));
        assert(pool.to_multiset() =~= rest.to_multiset().insert(pool[j]));
    }
}

proof fn lemma_members_of_update<T>(groups: Seq<Seq<T>>, g: int, x: T)
    requires
        0 <= g < groups.len(),
    ensures
        members_of(groups.update(g, groups[g].push(x))) == members_of(groups).insert(x),
    decreases groups.len(),
{
    broadcast use vstd::seq_lib::group_to_multiset_ensures;
    broadcast use vstd::multiset::group_multiset_axioms;

    let updated = groups.update(g, groups[g].push(x));
    if g == groups.len() - 1 {
        assert(updated.drop_last() =~= groups.drop_last());
        assert(members_of(updated) =~= members_of(groups).insert(x));
    } else {
        lemma_members_of_update(groups.drop_last(), g, x);
        assert(updated.drop_last() =~= groups.drop_last().update(g, groups[g].push(x)));
        assert(members_of(updated) =~= members_of(groups).insert(x));
    }
}

proof fn lemma_members_of_empty<T>(count: nat)
    ensures
        members_of(Seq::new(count, |g: int| Seq::<T>::empty())) == Multiset::<T>::empty(),
    decreases count,
{
    broadcast use vstd::seq_lib::group_to_multiset_ensures;
    broadcast use vstd::multiset::group_multiset_axioms;

    if count > 0 {
        let s = Seq::new(count, |g: int| Seq::<T>::empty());
        lemma_members_of_empty::<T>((count - 1) as nat);
        assert(s.drop_last() =~= Seq::new((count - 1) as nat, |g: int| Seq::<T>::empty()));
        assert(s.last().to_multiset().len() == 0);
        assert(members_of(s) =~= Multiset::<T>::empty());
    }
}

/// Dealing puts every member into exactly one team.
pub proof fn lemma_deal_keeps_members<T>(order: Seq<T>, count: nat)
    requires
        count >= 1,
    ensures
        members_of(deal(order, count)) == order.to_multiset(),
    decreases order.len(),
{
    broadcast use vstd::seq_lib::group_to_multiset_ensures;

    if order.len() == 0 {
        lemma_members_of_empty::<T>(count);
        assert(order =~= Seq::<T>::empty());
    } else {
        let prev = deal(order.drop_last(), count);
        lemma_deal_keeps_members(order.drop_last(), count);
        lemma_deal_len(order.drop_last(), count);
        let g = (order.len() - 1) % (count as int);
        lemma_members_of_update(prev, g, order.last());
        assert(order.drop_last().push(order.last()) =~= order);
    }
}

proof fn lemma_next_div_mod(m: int, c: int)
    requires
        c >= 1,
        m >= 0,
    ensures
        if m % c == c - 1 {
            (m + 1) / c == m / c + 1 && (m + 1) % c == 0
        } else {
            (m + 1) / c == m / c && (m + 1) % c == m % c + 1
        },
{
    vstd::arithmetic::div_mod::lemma_fundamental_div_mod(m, c);
    vstd::arithmetic::div_mod::lemma_mod_bound(m, c);
    let q = m / c;
    let r = m % c;
    if r == c - 1 {
        assert((q + 1) * c + 0 == c * q + r + 1) by (nonlinear_arith)
            requires
                r == c - 1,
        ;
        vstd::arithmetic::div_mod::lemma_fundamental_div_mod_converse(m + 1, c, q + 1, 0);
    } else {
        assert(q * c + (r + 1) == c * q + r + 1) by (nonlinear_arith);
        vstd::arithmetic::div_mod::lemma_fundamental_div_mod_converse(m + 1, c, q, r + 1);
    }
}

/// Dealing gives teams whose sizes differ by one at most: team `g` gets
/// `n / count` members, one more if `g < n % count`.
pub proof fn lemma_deal_sizes<T>(order: Seq<T>, count: nat)
    requires
        count >= 1,
    ensures
        forall|g: int| 0 <= g < count ==> #[trigger] deal(order, count)[g].len() == (order.len() as int) / (count as int)
            + (if g < (order.len() as int) % (count as int) { 1int } else { 0int }),
    decreases order.len(),
{
    lemma_deal_len(order, count);
    if order.len() == 0 {
        let c = count as int;
        assert(0int / c == 0 && 0int % c == 0) by (nonlinear_arith)
            requires
                c >= 1,
        ;
    } else {
        let m = order.len() - 1;
        let c = count as int;
        lemma_deal_sizes(order.drop_last(), count);
        lemma_deal_len(order.drop_last(), count);
        assert forall|g: int| 0 <= g < count implies #[trigger] deal(order, count)[g].len() == (order.len() as int) / c
            + (if g < (order.len() as int) % c { 1int } else { 0int }) by {
            let prev = deal(order.drop_last(), count);
            assert(prev[g].len() == m / c + (if g < m % c { 1int } else { 0int }));
            lemma_next_div_mod(m, c);
            assert(order.drop_last().len() == m);
            if g == m % c {
                assert(deal(order, count)[g] == prev[g].push(order.last()));
            } else {
                assert(deal(order, count)[g] == prev[g]);
            }
        }
    }
}

/// Splitting a group into teams puts every member into exactly one team, in
/// teams whose sizes differ by one at most, whatever the draws.
pub proof fn lemma_teams_partition<T>(members: Seq<T>, draws: Seq<usize>)
    requires
        members.len() >= 1,
        valid_draws(draws, members.len()),
    ensures
        teams(members, draws).len() == team_count(members.len()),
        members_of(teams(members, draws)) == members.to_multiset(),
        forall|g: int| 0 <= g < team_count(members.len()) ==> #[trigger] teams(members, draws)[g].len()
            == (members.len() as int) / (team_count(members.len()) as int) + (if g < (members.len() as int) % (team_count(members.len()) as int) { 1int } else { 0int }),
{
    broadcast use vstd::seq_lib::group_to_multiset_ensures;

    lemma_team_count_positive(members.len());
    let order = drawn(members, draws);
    lemma_drawn_is_permutation(members, draws);
    lemma_deal_len(order, team_count(members.len()));
    lemma_deal_keeps_members(order, team_count(members.len()));
    lemma_deal_sizes(order, team_count(members.len()));
    assert(order.to_multiset().len() == members.to_multiset().len());
    assert(order.len() == members.len());
}

/// Teams of at least `s` and fewer than `2 * s` members: with `k = n / s`
/// teams, dealt `n / k` members each and one more to the first `n % k`.
proof fn lemma_team_bounds(n: int, s: int)
    requires
        s >= 1,
        n >= s,
    ensures
        s <= n / (n / s),
        n / (n / s) + (if n % (n / s) > 0 { 1int } else { 0int }) < 2 * s,
{
    let k = n / s;
    vstd::arithmetic::div_mod::lemma_fundamental_div_mod(n, s);
    assert(k >= 1) by (nonlinear_arith)
        requires
            n == s * k + n % s,
            0 <= n % s < s,
            n >= s,
    ;
    let q = n / k;
    let r = n % k;
    vstd::arithmetic::div_mod::lemma_fundamental_div_mod(n, k);
    assert(k * s <= n < k * s + s) by (nonlinear_arith)
        requires
            n == s * k + n % s,
            0 <= n % s < s,
    ;
    assert(q >= s) by (nonlinear_arith)
        requires
            n == k * q + r,
            0 <= r < k,
            k * s <= n,
            k >= 1,
    ;
    assert(q < 2 * s) by (nonlinear_arith)
        requires
            n == k * q + r,
            0 <= r,
            n < k * s + s,
            k >= 1,
            s >= 1,
    ;
    if r > 0 {
        assert(q + 1 < 2 * s) by (nonlinear_arith)
            requires
                n == k * q + r,
                1 <= r < k,
                n < k * s + s,
                k >= 1,
                s >= 1,
                q < 2 * s,
        ;
    }
}

/// The team size is `floor(log2(2n))` for a group of `n`, and the group is
/// split into `n / size` teams, each with at least `size` and fewer than
/// `2 * size` members: for any `size` with `2^(size-1) <= n < 2^size`.
pub proof fn lemma_team_count_is_log2<T>(members: Seq<T>, draws: Seq<usize>, size: nat)
    requires
        members.len() >= 1,
        valid_draws(draws, members.len()),
        size >= 1,
        pow2((size - 1) as nat) <= members.len() < pow2(size),
    ensures
        teams(members, draws).len() == members.len() / size,
        forall|g: int| 0 <= g < teams(members, draws).len() ==> size <= #[trigger] teams(members, draws)[g].len() < 2 * size,
{
    let n = members.len();
    let b = bit_length(n);
    lemma_team_size_is_log2(n);
    lemma_bit_length_le(n);
    if size < b {
        if size < (b - 1) as nat {
            vstd::arithmetic::power2::lemma_pow2_strictly_increases(size, (b - 1) as nat);
        }
        assert(false);
    }
    if size > b {
        if b < (size - 1) as nat {
            vstd::arithmetic::power2::lemma_pow2_strictly_increases(b, (size - 1) as nat);
        }
        assert(false);
    }
    assert(size == b);
    lemma_teams_partition(members, draws);
    lemma_team_bounds(n as int, size as int);
}

// ---------------------------------------------------------------------------
// Random draws
// ---------------------------------------------------------------------------
/// A number drawn by rand's thread-local generator,
/// `thread_rng().gen_range(0, bound)`, which panics on an empty range.
/// Claimed: the number is below `bound`. Which number comes is left open.
#[verifier::external_body]
pub(crate) fn random_below(bound: usize) -> (res: usize)
    requires
        bound > 0,
    ensures
        res < bound,
{
    rand::thread_rng().gen_range(0, bound)
}

/// Splits a group into random teams: members are drawn at random one by
/// one and dealt round the teams in turn.
pub fn make_teams<T>(members: Vec<T>) -> (res: Vec<Vec<T>>)
    requires
        members@.len() >= 1,
    ensures
        exists|draws: Seq<usize>| valid_draws(draws, members@.len()) && teams_view(res@) == teams(members@, draws),
{
    let n = members.len();
    let mut draws: Vec<usize> = Vec::new();
    let mut i: usize = 0;
    while i < n
        invariant
            i <= n,
            draws@.len() == i,
            forall|k: int| 0 <= k < i ==> #[trigger] draws@[k] < n - k,
        decreases n - i,
    {
        draws.push(random_below(n - i));
        i = i + 1;
    }
    let res = assign_teams(members, &draws);
    assert(valid_draws(draws@, n as nat));
    res
}

// ---------------------------------------------------------------------------
// The message that lists the teams
// ---------------------------------------------------------------------------
/// The members of a team, each followed by a space.
pub open spec fn member_list(team: Seq<String>) -> Seq<char>
    decreases team.len(),
{
    if team.len() == 0 {
        Seq::<char>::empty()
    } else {
        member_list(team.drop_last()) + team.last()@ + " "@
    }
}

/// One line per team: `Group <number>: <members>`, numbered from 1.
pub open spec fn teams_text(teams: Seq<Vec<String>>) -> Seq<char>
    decreases teams.len(),
{
    if teams.len() == 0 {
        Seq::<char>::empty()
    } else {
        teams_text(teams.drop_last()) + "Group "@ + decimal(teams.len()) + ": "@ + member_list(teams.last()@) + "\n"@
    }
}

/// The message has one line per team, in the teams' order: the line of the
/// `k`-th team (counting from 0) reads `Group <k + 1>: ` followed by each of
/// its members and a space, and ends the line. An empty list of teams gives
/// an empty message.
pub proof fn lemma_teams_text_lines(teams: Seq<Vec<String>>, k: int, team: Seq<String>, member: String)
    requires
        0 <= k < teams.len(),
    ensures
        teams_text(Seq::<Vec<String>>::empty()) == Seq::<char>::empty(),
        teams_text(teams.take(k + 1)) == teams_text(teams.take(k)) + "Group "@ + decimal((k + 1) as nat) + ": "@
            + member_list(teams[k]@) + "\n"@,
        member_list(Seq::<String>::empty()) == Seq::<char>::empty(),
        member_list(team.push(member)) == member_list(team) + member@ + " "@,
{
    let upto = teams.take(k + 1);
    assert(upto.drop_last() =~= teams.take(k));
    assert(upto.last() == teams[k]);
    let t2 = team.push(member);
    assert(t2.drop_last() =~= team);
    assert(t2.last() == member);
}

/// The message that lists the teams.
pub fn teams_message(teams: &Vec<Vec<String>>) -> (res: String)
    ensures
        res@ == teams_text(teams@),
{
    let mut text = String::new();
    let mut i: usize = 0;
    while i < teams.len()
        invariant
            i <= teams@.len(),
            text@ == teams_text(teams@.take(i as int)),
        decreases teams@.len() - i,
    {
        let team = &teams[i];
        let mut line = String::new();
        let mut j: usize = 0;
        while j < team.len()
            invariant
                j <= team@.len(),
                line@ == member_list(team@.take(j as int)),
            decreases team@.len() - j,
        {
            let ghost before = line@;
            line.append(team[j].as_str());
            line.append(" ");
            proof {
                assert(team@.take(j + 1).drop_last() =~= team@.take(j as int));
                assert(line@ =~= before + team@[j as int]@ + " "@);
            }
            j = j + 1;
        }
        assert(team@.take(team@.len() as int) =~= team@);
        let ghost before = text@;
        let number = i + 1;
        text.append("Group ");
        text.append(string_of(decimal_chars(number as u64).as_slice()).as_str());
        text.append(": ");
        text.append(line.as_str());
        text.append("\n");
        proof {
            let upto = teams@.take(i + 1);
            assert(upto.drop_last() =~= teams@.take(i as int));
            assert(upto.last() == teams@[i as int]);
            assert(text@ =~= before + "Group "@ + decimal(upto.len()) + ": "@ + member_list(upto.last()@) + "\n"@);
        }
        i = i + 1;
    }
    assert(teams@.take(teams@.len() as int) =~= teams@);
    text
}

} // verus!
