//! "Another Game": n heaps of coins; a move removes one coin from each heap of
//! any nonempty subset of the nonempty heaps; whoever takes the last coin wins.
//! The first player wins iff at least one heap holds an odd number of coins.

pub mod heap;
pub mod parity;

use vstd::prelude::*;

verus! {

/// Who wins with optimal play.
#[derive(Debug, Clone, Copy, PartialEq, Eq, Structural)]
pub enum Winner {
    First,
    Second,
}

/// The game is a first-player win exactly when some heap is odd.
pub open spec fn some_heap_odd(heaps: Seq<u32>) -> bool {
    exists|i: int| 0 <= i < heaps.len() && heaps[i] % 2 == 1
}

/// The winner that the parity rule assigns to a position.
pub open spec fn spec_winner(heaps: Seq<u32>) -> Winner {
    if some_heap_odd(heaps) {
        Winner::First
    } else {
        Winner::Second
    }
}

/// The coins left in a position.
pub open spec fn coins(h: Seq<int>) -> int
    decreases h.len(),
{
    if h.len() == 0 {
        0
    } else {
        coins(h.drop_last()) + h.last()
    }
}

/// `after` follows from `before` by one move: one coin taken from each heap
/// of a nonempty set of nonempty heaps.
pub open spec fn is_move(before: Seq<int>, after: Seq<int>) -> bool {
    &&& after.len() == before.len()
    &&& forall|i: int|
        0 <= i < before.len() ==> #[trigger] after[i] == before[i] || (after[i] == before[i] - 1
            && before[i] > 0)
    &&& exists|i: int| 0 <= i < before.len() && #[trigger] after[i] != before[i]
}

/// A position with no negative heap.
pub open spec fn position(h: Seq<int>) -> bool {
    forall|i: int| 0 <= i < h.len() ==> #[trigger] h[i] >= 0
}

/// Some heap of `h` is odd.
pub open spec fn has_odd_heap(h: Seq<int>) -> bool {
    exists|i: int| 0 <= i < h.len() && #[trigger] h[i] % 2 == 1
}

/// `wins` follows the rules of the game: in every position, the player to
/// move wins exactly when some move leaves the opponent in a losing
/// position. (With no coin left there is no move, so the player to move has
/// lost: the opponent took the last coin.)
pub open spec fn obeys_rules(wins: spec_fn(Seq<int>) -> bool) -> bool {
    forall|h: Seq<int>|
        position(h) ==> #[trigger] wins(h) == exists|h2: Seq<int>|
            is_move(h, h2) && position(h2) && !#[trigger] wins(h2)
}

/// A move takes at least one coin.
proof fn lemma_move_takes(before: Seq<int>, after: Seq<int>)
    requires
        is_move(before, after),
    ensures
        coins(after) < coins(before),
        coins(after) <= coins(before),
    decreases before.len(),
{
    let b = before.drop_last();
    let a = after.drop_last();
    if before.len() > 0 {
        if a =~= b {
            assert(after.last() != before.last()) by {
                let i = choose|i: int| 0 <= i < before.len() && #[trigger] after[i] != before[i];
                if i < before.len() - 1 {
                    assert(a[i] == b[i]);
                }
            }
        } else {
            assert(is_move(b, a)) by {
                assert forall|i: int| 0 <= i < b.len() implies #[trigger] a[i] == b[i] || (a[i] == b[i]
                    - 1 && b[i] > 0) by {
                    assert(after[i] == before[i] || (after[i] == before[i] - 1 && before[i] > 0));
                }
                let j = choose|j: int| 0 <= j < b.len() && a[j] != b[j];
                assert(a[j] != b[j]);
            }
            lemma_move_takes(b, a);
            assert(after[after.len() - 1] == before[before.len() - 1] || after[after.len() - 1]
                == before[before.len() - 1] - 1);
        }
    }
}

/// A position holds no negative number of coins.
proof fn lemma_coins_nonneg(h: Seq<int>)
    requires
        position(h),
    ensures
        coins(h) >= 0,
    decreases h.len(),
{
    if h.len() > 0 {
        lemma_coins_nonneg(h.drop_last());
        assert(h[h.len() - 1] >= 0);
    }
}

/// The coin counts of a list of heaps.
pub open spec fn as_position(heaps: Seq<u32>) -> Seq<int> {
    heaps.map_values(|x: u32| x as int)
}

/// Taking one coin from every odd heap leaves every heap even.
proof fn lemma_evening_move(h: Seq<int>) -> (h2: Seq<int>)
    requires
        position(h),
        has_odd_heap(h),
    ensures
        is_move(h, h2),
        position(h2),
        !has_odd_heap(h2),
{
    let i0 = choose|i: int| 0 <= i < h.len() && #[trigger] h[i] % 2 == 1;
    let h2 = Seq::new(h.len(), |i: int| if h[i] % 2 == 1 { h[i] - 1 } else { h[i] });
    assert(h2[i0] != h[i0]);
    h2
}

/// From a position with every heap even, every move makes some heap odd.
proof fn lemma_move_from_even(h: Seq<int>, h2: Seq<int>)
    requires
        position(h),
        !has_odd_heap(h),
        is_move(h, h2),
    ensures
        has_odd_heap(h2),
{
    let j = choose|j: int| 0 <= j < h.len() && #[trigger] h2[j] != h[j];
    assert(h2[j] == h[j] - 1);
    assert(h2[j] % 2 == 1);
}

/// The parity rule follows the rules of the game: with some odd heap, the
/// player to move takes one coin from each odd heap and leaves all heaps
/// even; with every heap even, every move leaves some heap odd.
pub proof fn lemma_parity_obeys_rules()
    ensures
        obeys_rules(|h: Seq<int>| has_odd_heap(h)),
{
    let wins = |h: Seq<int>| has_odd_heap(h);
    assert forall|h: Seq<int>| position(h) implies #[trigger] wins(h) == exists|h2: Seq<int>|
        is_move(h, h2) && position(h2) && !#[trigger] wins(h2) by {
        if has_odd_heap(h) {
            let h2 = lemma_evening_move(h);
            assert(!wins(h2));
        } else {
            assert forall|h2: Seq<int>| is_move(h, h2) && position(h2) implies #[trigger] wins(h2) by {
                lemma_move_from_even(h, h2);
            }
        }
    }
}

/// The rules of the game decide every position, and the decision is the
/// parity rule: whoever follows the rules finds that the player to move
/// wins exactly when some heap is odd. So the first player wins iff at least
/// one heap holds an odd number of coins.
pub proof fn lemma_first_wins_iff_odd(wins: spec_fn(Seq<int>) -> bool, heaps: Seq<u32>)
    requires
        obeys_rules(wins),
    ensures
        wins(as_position(heaps)) == some_heap_odd(heaps),
{
    let h = as_position(heaps);
    assert(position(h));
    lemma_outcome(wins, h);
    if some_heap_odd(heaps) {
        let i = choose|i: int| 0 <= i < heaps.len() && heaps[i] % 2 == 1;
        assert(h[i] % 2 == 1);
    }
}

/// The winner the parity rule names is the first player exactly when some
/// heap holds an odd number of coins.
pub proof fn lemma_winner_is_first_iff_odd_heap(heaps: Seq<u32>)
    ensures
        (spec_winner(heaps) == Winner::First) <==> exists|i: int| 0 <= i < heaps.len() && heaps[i] % 2 == 1,
        (spec_winner(heaps) == Winner::Second) <==> forall|i: int| 0 <= i < heaps.len() ==> heaps[i] % 2 == 0,
{
}

/// The winner the parity rule names is the one the rules of the game
/// decide: for any `wins` that follows the rules, the first player is named
/// exactly when the player to move wins the starting position.
pub proof fn lemma_winner_follows_rules(wins: spec_fn(Seq<int>) -> bool, heaps: Seq<u32>)
    requires
        obeys_rules(wins),
    ensures
        (spec_winner(heaps) == Winner::First) <==> wins(as_position(heaps)),
{
    let h = as_position(heaps);
    assert(position(h));
    lemma_outcome(wins, h);
    if has_odd_heap(h) {
        let i = choose|i: int| 0 <= i < h.len() && #[trigger] h[i] % 2 == 1;
        assert(heaps[i] % 2 == 1);
    }
    if exists|i: int| 0 <= i < heaps.len() && heaps[i] % 2 == 1 {
        let i = choose|i: int| 0 <= i < heaps.len() && heaps[i] % 2 == 1;
        assert(h[i] % 2 == 1);
    }
}

proof fn lemma_outcome(wins: spec_fn(Seq<int>) -> bool, h: Seq<int>)
    requires
        obeys_rules(wins),
        position(h),
    ensures
        wins(h) == has_odd_heap(h),
    decreases coins(h),
{
    lemma_coins_nonneg(h);
    assert(wins(h) == exists|h2: Seq<int>| is_move(h, h2) && position(h2) && !#[trigger] wins(h2));
    if has_odd_heap(h) {
        let h2 = lemma_evening_move(h);
        lemma_move_takes(h, h2);
        lemma_coins_nonneg(h2);
        lemma_outcome(wins, h2);
        assert(!wins(h2));
    } else {
        assert forall|h2: Seq<int>| is_move(h, h2) && position(h2) implies #[trigger] wins(h2) by {
            lemma_move_from_even(h, h2);
            lemma_move_takes(h, h2);
            lemma_coins_nonneg(h2);
            lemma_outcome(wins, h2);
        }
    }
}

impl Winner {
    /// The word the judge expects for this winner.
    pub fn as_str(self) -> (s: &'static str)
        ensures
            self == Winner::First ==> s@ == "first"@,
            self == Winner::Second ==> s@ == "second"@,
    {
        match self {
            Winner::First => "first",
            Winner::Second => "second",
        }
    }
}

} // verus!
