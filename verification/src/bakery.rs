//! The rules of Lamport's bakery lock: a thread draws a ticket one higher than
//! any ticket it sees, and threads enter in the order of (ticket, thread id).
//! A ticket of 0 means that the thread is not competing.
use vstd::prelude::*;

verus! {

/// The highest ticket in `tickets`, or 0 when there is none.
pub open spec fn highest(tickets: Seq<u64>) -> int
    decreases tickets.len(),
{
    if tickets.len() == 0 {
        0
    } else {
        let rest = highest(tickets.drop_last());
        if tickets.last() > rest {
            tickets.last() as int
        } else {
            rest
        }
    }
}

/// Thread `i1` holding ticket `t1` comes before thread `i2` holding ticket `t2`:
/// the smaller ticket first, and the smaller thread id on equal tickets.
pub open spec fn precedes(t1: int, i1: int, t2: int, i2: int) -> bool {
    t1 < t2 || (t1 == t2 && i1 < i2)
}

proof fn lemma_highest_bounds(tickets: Seq<u64>)
    ensures
        0 <= highest(tickets),
        forall|i: int| 0 <= i < tickets.len() ==> tickets[i] <= highest(tickets),
        tickets.len() > 0 ==> exists|i: int| 0 <= i < tickets.len() && tickets[i] == highest(tickets),
        tickets.len() == 0 ==> highest(tickets) == 0,
    decreases tickets.len(),
{
    if tickets.len() > 0 {
        let rest = tickets.drop_last();
        lemma_highest_bounds(rest);
        assert forall|i: int| 0 <= i < tickets.len() implies tickets[i] <= highest(tickets) by {
            if i < tickets.len() - 1 {
                assert(tickets[i] == rest[i]);
            }
        }
        if tickets.last() > highest(rest) {
            assert(tickets[tickets.len() - 1] == highest(tickets));
        } else if rest.len() > 0 {
            let j = choose|j: int| 0 <= j < rest.len() && rest[j] == highest(rest);
            assert(tickets[j] == highest(tickets));
        } else {
            assert(tickets[0] == highest(tickets));
        }
    }
}

/// The ticket a thread draws when it enters: one more than the highest ticket
/// it sees.
pub fn next_ticket(tickets: &[u64]) -> (ticket: u64)
    requires
        highest(tickets@) < u64::MAX,
    ensures
        ticket == highest(tickets@) + 1,
        forall|i: int| 0 <= i < tickets@.len() ==> tickets@[i] < ticket,
{
    let mut max_ticket: u64 = 0;
    let mut i: usize = 0;
    while i < tickets.len()
        invariant
            i <= tickets@.len(),
            highest(tickets@) < u64::MAX,
            max_ticket == highest(tickets@.take(i as int)),
        decreases tickets@.len() - i,
    {
        proof {
            assert(tickets@.take(i as int + 1).drop_last() =~= tickets@.take(i as int));
            assert(tickets@.take(i as int + 1).last() == tickets@[i as int]);
        }
        let ticket = tickets[i];
        if ticket > max_ticket {
            max_ticket = ticket;
        }
        i = i + 1;
    }
    proof {
        assert(tickets@.take(tickets@.len() as int) =~= tickets@);
        lemma_highest_bounds(tickets@);
    }
    max_ticket + 1
}

/// Whether the thread `me`, holding `my_ticket`, has to keep waiting for the
/// thread `other`, which holds `other_ticket`: it does while `other` competes
/// and comes first.
pub fn must_wait(other_ticket: u64, other: usize, my_ticket: u64, me: usize) -> (wait: bool)
    ensures
        wait == (other_ticket != 0 && precedes(other_ticket as int, other as int, my_ticket as int, me as int)),
{
    if other_ticket == 0 {
        return false;
    }
    other_ticket < my_ticket || (other_ticket == my_ticket && other < me)
}

/// Of two different competing threads, exactly one waits for the other: the
/// order on (ticket, thread id) leaves no tie and no cycle between two threads.
pub proof fn lemma_exactly_one_waits(t1: u64, i1: usize, t2: u64, i2: usize)
    requires
        i1 != i2,
        t1 != 0,
        t2 != 0,
    ensures
        precedes(t1 as int, i1 as int, t2 as int, i2 as int) != precedes(
            t2 as int,
            i2 as int,
            t1 as int,
            i1 as int,
        ),
{
}

/// A thread that draws a ticket while others hold theirs comes after every one
/// of them.
pub proof fn lemma_newcomer_goes_last(tickets: Seq<u64>, me: int, other: int)
    requires
        highest(tickets) < u64::MAX,
        0 <= other < tickets.len(),
    ensures
        precedes(tickets[other] as int, other, highest(tickets) + 1, me),
{
    lemma_highest_bounds(tickets);
}

} // verus!
