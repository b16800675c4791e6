//! How large a table must be: the growth law of table-driven agents.
//!
//! A table that serves an agent for a lifetime of `T` percepts over `|P|`
//! distinct percept values needs one entry for every history of length
//! `1..=T`: `|P| + |P|^2 + ... + |P|^T` entries. For more than one percept
//! value the sum grows without bound as the lifetime grows, which is why the
//! table-driven strategy suits only short-lived agents with few percepts, and
//! why no function here fills a table on its own.

use vstd::prelude::*;
use vstd::relations::injective_on;
use vstd::set_lib::*;

verus! {

/// `base` multiplied by itself `exponent` times.
pub open spec fn power(base: nat, exponent: nat) -> nat
    decreases exponent,
{
    if exponent == 0 {
        1
    } else {
        base * power(base, (exponent - 1) as nat)
    }
}

/// The number of entries that a table needs for `percepts` distinct percept
/// values and a lifetime of `lifetime` percepts: the sum of
/// `power(percepts, t)` for `t` from 1 to `lifetime`.
pub open spec fn entries_required(percepts: nat, lifetime: nat) -> nat
    decreases lifetime,
{
    if lifetime == 0 {
        0
    } else {
        entries_required(percepts, (lifetime - 1) as nat) + power(percepts, lifetime)
    }
}

/// Every percept of `history` is one of `alphabet`.
pub open spec fn drawn_from<Percept>(history: Seq<Percept>, alphabet: Set<Percept>) -> bool {
    forall|i: int| 0 <= i < history.len() ==> alphabet.contains(#[trigger] history[i])
}

/// The histories over `alphabet` that hold exactly `length` percepts.
pub open spec fn histories_of_length<Percept>(alphabet: Set<Percept>, length: nat) -> Set<
    Seq<Percept>,
> {
    Set::new(|history: Seq<Percept>| history.len() == length && drawn_from(history, alphabet))
}

/// The histories over `alphabet` that an agent can have received within a
/// lifetime of `lifetime` percepts: those of length 1 to `lifetime`.
pub open spec fn histories_within<Percept>(alphabet: Set<Percept>, lifetime: nat) -> Set<
    Seq<Percept>,
> {
    Set::new(
        |history: Seq<Percept>| 1 <= history.len() <= lifetime && drawn_from(history, alphabet),
    )
}

/// The histories made of one of `stems` and then one percept of `next`.
spec fn extensions<Percept>(stems: Set<Seq<Percept>>, next: Set<Percept>) -> Set<Seq<Percept>> {
    Set::new(
        |history: Seq<Percept>|
            history.len() > 0 && stems.contains(history.drop_last()) && next.contains(
                history.last(),
            ),
    )
}

/// There are as many extensions as there are pairs of a stem and a next
/// percept.
proof fn lemma_count_extensions<Percept>(stems: Set<Seq<Percept>>, next: Set<Percept>)
    requires
        stems.finite(),
        next.finite(),
    ensures
        extensions(stems, next).finite(),
        extensions(stems, next).len() == stems.len() * next.len(),
    decreases next.len(),
{
    broadcast use group_set_properties;

    if next.len() == 0 {
        assert(extensions(stems, next) =~= Set::<Seq<Percept>>::empty());
        assert(stems.len() * next.len() == 0) by (nonlinear_arith)
            requires
                next.len() == 0,
        ;
    } else {
        let percept = next.choose();
        let rest = next.remove(percept);
        lemma_count_extensions(stems, rest);
        let append = |stem: Seq<Percept>| stem.push(percept);
        let appended = stems.map(append);
        assert(injective_on(append, stems)) by {
            assert forall|a: Seq<Percept>, b: Seq<Percept>|
                stems.contains(a) && stems.contains(b) && #[trigger] append(a) == #[trigger] append(
                    b,
                ) implies a == b by {
                assert(a.push(percept).drop_last() =~= a);
                assert(b.push(percept).drop_last() =~= b);
            }
        }
        lemma_map_size(stems, appended, append);
        assert(extensions(stems, next) =~= extensions(stems, rest) + appended) by {
            assert forall|history: Seq<Percept>|
                extensions(stems, next).contains(history) implies (extensions(stems, rest)
                + appended).contains(history) by {
                if history.last() == percept {
                    assert(history =~= append(history.drop_last()));
                }
            }
            assert forall|history: Seq<Percept>| appended.contains(history) implies extensions(
                stems,
                next,
            ).contains(history) by {
                let stem = choose|stem: Seq<Percept>|
                    stems.contains(stem) && history == append(stem);
                assert(history.drop_last() =~= stem);
            }
        }
        assert(extensions(stems, rest).disjoint(appended));
        lemma_set_disjoint_lens(extensions(stems, rest), appended);
        assert(stems.len() * rest.len() + stems.len() == stems.len() * next.len())
            by (nonlinear_arith)
            requires
                rest.len() + 1 == next.len(),
        ;
    }
}

/// Over a finite alphabet there are `power(|alphabet|, length)` histories of
/// a given length.
pub proof fn lemma_count_histories_of_length<Percept>(alphabet: Set<Percept>, length: nat)
    requires
        alphabet.finite(),
    ensures
        histories_of_length(alphabet, length).finite(),
        histories_of_length(alphabet, length).len() == power(alphabet.len(), length),
    decreases length,
{
    broadcast use group_set_properties;

    if length == 0 {
        let none = Seq::<Percept>::empty();
        assert(histories_of_length(alphabet, 0) =~= Set::<Seq<Percept>>::empty().insert(none)) by {
            assert forall|history: Seq<Percept>|
                histories_of_length(alphabet, 0).contains(history) implies history == none by {
                assert(history =~= none);
            }
        }
    } else {
        let shorter = histories_of_length(alphabet, (length - 1) as nat);
        lemma_count_histories_of_length(alphabet, (length - 1) as nat);
        lemma_count_extensions(shorter, alphabet);
        assert(histories_of_length(alphabet, length) =~= extensions(shorter, alphabet)) by {
            assert forall|history: Seq<Percept>|
                histories_of_length(alphabet, length).contains(
                    history,
                ) implies extensions(shorter, alphabet).contains(history) by {
                let stem = history.drop_last();
                assert forall|i: int| 0 <= i < stem.len() implies alphabet.contains(
                    #[trigger] stem[i],
                ) by {
                    assert(stem[i] == history[i]);
                }
            }
            assert forall|history: Seq<Percept>|
                extensions(shorter, alphabet).contains(
                    history,
                ) implies histories_of_length(alphabet, length).contains(history) by {
                let stem = history.drop_last();
                assert forall|i: int| 0 <= i < history.len() implies alphabet.contains(
                    #[trigger] history[i],
                ) by {
                    if i < stem.len() {
                        assert(history[i] == stem[i]);
                    }
                }
            }
        }
        assert(shorter.len() * alphabet.len() == alphabet.len() * shorter.len())
            by (nonlinear_arith);
    }
}

/// The growth law. Over a finite alphabet, the histories that can occur
/// within a lifetime are finitely many, and their number is
/// `entries_required(|alphabet|, lifetime)`.
pub proof fn lemma_count_histories_within<Percept>(alphabet: Set<Percept>, lifetime: nat)
    requires
        alphabet.finite(),
    ensures
        histories_within(alphabet, lifetime).finite(),
        histories_within(alphabet, lifetime).len() == entries_required(alphabet.len(), lifetime),
    decreases lifetime,
{
    broadcast use group_set_properties;

    if lifetime == 0 {
        assert(histories_within(alphabet, 0) =~= Set::<Seq<Percept>>::empty());
    } else {
        let earlier = histories_within(alphabet, (lifetime - 1) as nat);
        let longest = histories_of_length(alphabet, lifetime);
        lemma_count_histories_within(alphabet, (lifetime - 1) as nat);
        lemma_count_histories_of_length(alphabet, lifetime);
        assert(histories_within(alphabet, lifetime) =~= earlier + longest);
        lemma_set_disjoint_lens(earlier, longest);
    }
}

/// The growth law, for a table. A table that holds an entry for each history
/// of length 1 to `lifetime` over a finite alphabet, and for nothing else,
/// has exactly `entries_required(|alphabet|, lifetime)` entries.
pub proof fn lemma_growth_law<Percept, Action>(
    table: Map<Seq<Percept>, Action>,
    alphabet: Set<Percept>,
    lifetime: nat,
)
    requires
        alphabet.finite(),
        table.dom() == histories_within(alphabet, lifetime),
    ensures
        table.dom().finite(),
        table.len() == entries_required(alphabet.len(), lifetime),
{
    lemma_count_histories_within(alphabet, lifetime);
}

/// A later power of a positive base is no smaller than an earlier one.
proof fn lemma_power_grows(base: nat, exponent: nat)
    requires
        base >= 1,
    ensures
        power(base, exponent) >= 1,
        power(base, exponent + 1) >= power(base, exponent),
    decreases exponent,
{
    if exponent > 0 {
        lemma_power_grows(base, (exponent - 1) as nat);
    }
    let lower = power(base, exponent);
    assert(base * lower >= lower) by (nonlinear_arith)
        requires
            base >= 1,
    ;
}

/// A longer lifetime never needs fewer entries.
pub proof fn lemma_entries_required_grows(percepts: nat, shorter: nat, longer: nat)
    requires
        shorter <= longer,
    ensures
        entries_required(percepts, shorter) <= entries_required(percepts, longer),
    decreases longer,
{
    if shorter < longer {
        lemma_entries_required_grows(percepts, shorter, (longer - 1) as nat);
    }
}

/// With more than one percept value the table at least doubles with every
/// further step of the lifetime: it needs `power(2, lifetime) - 1` entries or
/// more, and so more entries than the lifetime has steps.
pub proof fn lemma_growth_is_exponential(percepts: nat, lifetime: nat)
    requires
        percepts > 1,
    ensures
        entries_required(percepts, lifetime) + 1 >= power(2, lifetime),
        power(percepts, lifetime) >= power(2, lifetime),
        power(2, lifetime) > lifetime,
    decreases lifetime,
{
    if lifetime > 0 {
        let before = (lifetime - 1) as nat;
        lemma_growth_is_exponential(percepts, before);
        lemma_power_grows(2, before);
        let p = power(percepts, before);
        let q = power(2, before);
        assert(percepts * p >= 2 * q) by (nonlinear_arith)
            requires
                percepts >= 2,
                p >= q,
        ;
    }
}

/// The table-driven strategy has no bound. With more than one percept value,
/// whatever number of entries is on offer, some lifetime needs more.
pub proof fn lemma_growth_is_unbounded(percepts: nat, bound: nat)
    requires
        percepts > 1,
    ensures
        exists|lifetime: nat| entries_required(percepts, lifetime) > bound,
{
    lemma_growth_is_exponential(percepts, bound + 1);
    assert(entries_required(percepts, bound + 1) > bound);
}

/// With no percept value at all there is no history to hold.
proof fn lemma_entries_required_of_none(lifetime: nat)
    ensures
        entries_required(0, lifetime) == 0,
    decreases lifetime,
{
    if lifetime > 0 {
        lemma_entries_required_of_none((lifetime - 1) as nat);
    }
}

/// With one percept value there is one history of each length.
proof fn lemma_entries_required_of_one(lifetime: nat)
    ensures
        power(1, lifetime) == 1,
        entries_required(1, lifetime) == lifetime,
    decreases lifetime,
{
    if lifetime > 0 {
        lemma_entries_required_of_one((lifetime - 1) as nat);
    }
}

/// Computes the number of entries that a table needs for `percepts` distinct
/// percept values and a lifetime of `lifetime` percepts, or `None` where that
/// number is too large for a `u64`.
pub fn required_entries(percepts: u64, lifetime: u64) -> (count: Option<u64>)
    ensures
        match count {
            Some(entries) => entries == entries_required(percepts as nat, lifetime as nat),
            None => entries_required(percepts as nat, lifetime as nat) > u64::MAX,
        },
{
    if percepts == 0 {
        proof {
            lemma_entries_required_of_none(lifetime as nat);
        }
        return Some(0);
    }
    if percepts == 1 {
        proof {
            lemma_entries_required_of_one(lifetime as nat);
        }
        return Some(lifetime);
    }
    let mut steps: u64 = 0;
    let mut term: u64 = 1;
    let mut total: u64 = 0;
    while steps < lifetime
        invariant
            percepts > 1,
            steps <= lifetime,
            term == power(percepts as nat, steps as nat),
            total == entries_required(percepts as nat, steps as nat),
        decreases lifetime - steps,
    {
        proof {
            lemma_entries_required_grows(percepts as nat, (steps + 1) as nat, lifetime as nat);
        }
        match term.checked_mul(percepts) {
            None => {
                return None;
            },
            Some(next) => {
                assert(next == power(percepts as nat, (steps + 1) as nat)) by {
                    assert(term * percepts == percepts * term) by (nonlinear_arith);
                }
                match total.checked_add(next) {
                    None => {
                        return None;
                    },
                    Some(sum) => {
                        term = next;
                        total = sum;
                        steps += 1;
                    },
                }
            },
        }
    }
    Some(total)
}

} // verus!
