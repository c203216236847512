//! The choice of assist guesses: guesses are grouped by constraint, and
//! the groups are gone through from the one without a letter to richer
//! and richer ones.

use crate::constraint::{compatible, lemma_yellow_letters, yellow_letters, Constraint};
use crate::feedback::{score, Directive, Feedback};
use crate::matcher::{accepts_all, Match, Matcher};
use crate::word::{lettered, Word};
use vstd::prelude::*;

verus! {

/// A guess and its feedback, as letters and directives.
pub type Scored = (Seq<u8>, Seq<Directive>);

/// A list of guesses with their feedback, as letters and directives.
pub open spec fn scored(entries: Seq<(Word, Feedback)>) -> Seq<Scored> {
    Seq::new(entries.len(), |i: int| (entries[i].0@, entries[i].1@))
}

/// The constraint that an entry gives: its yellow letters.
pub open spec fn key_of(entry: Scored) -> Seq<u8> {
    yellow_letters(entry.0, entry.1)
}

/// The words whose feedback against the solution passes the tests, each with
/// that feedback, in the order of the pool.
pub open spec fn survivors(pool: Seq<Seq<u8>>, solution: Seq<u8>, tests: Seq<Match>) -> Seq<Scored>
    decreases pool.len(),
{
    if pool.len() == 0 {
        Seq::empty()
    } else {
        let rest = survivors(pool.drop_last(), solution, tests);
        let feedback = score(pool.last(), solution);
        if accepts_all(tests, feedback) {
            rest.push((pool.last(), feedback))
        } else {
            rest
        }
    }
}

/// The entries that give the constraint `key`, in order: its group.
pub open spec fn members(entries: Seq<Scored>, key: Seq<u8>) -> Seq<Scored>
    decreases entries.len(),
{
    if entries.len() == 0 {
        Seq::empty()
    } else {
        let rest = members(entries.drop_last(), key);
        if key_of(entries.last()) == key {
            rest.push(entries.last())
        } else {
            rest
        }
    }
}

/// Whether entry `i` opens the group that follows the constraint `cur`: its
/// group is compatible with `cur`, no compatible group is larger, and every
/// compatible group with an entry before `i` is smaller. So among the
/// largest compatible groups it is the one that appears first.
pub open spec fn is_next(entries: Seq<Scored>, cur: Seq<u8>, i: int) -> bool {
    &&& 0 <= i < entries.len()
    &&& compatible(cur, key_of(entries[i]))
    &&& forall|j: int|
        0 <= j < entries.len() && compatible(cur, #[trigger] key_of(entries[j])) ==> members(
            entries,
            key_of(entries[j]),
        ).len() <= members(entries, key_of(entries[i])).len()
    &&& forall|j: int|
        0 <= j < i && compatible(cur, #[trigger] key_of(entries[j])) ==> members(
            entries,
            key_of(entries[j]),
        ).len() < members(entries, key_of(entries[i])).len()
}

/// The constraint of the group that follows `cur`, if any group is
/// compatible with `cur`.
pub open spec fn next_key(entries: Seq<Scored>, cur: Seq<u8>) -> Option<Seq<u8>> {
    if exists|i: int| is_next(entries, cur, i) {
        Some(key_of(entries[choose|i: int| is_next(entries, cur, i)]))
    } else {
        None
    }
}

/// The groups that follow `cur`, one after the other, each in full: the
/// group that follows `cur`, then the group that follows that one, until no
/// compatible group is left.
pub open spec fn chain(entries: Seq<Scored>, cur: Seq<u8>) -> Seq<Scored>
    decreases 256 - cur.len(),
{
    match next_key(entries, cur) {
        Some(key) => {
            proof {
                let i = choose|i: int| is_next(entries, cur, i);
                lemma_yellow_letters(entries[i].0, entries[i].1);
            }
            members(entries, key) + chain(entries, key)
        },
        None => Seq::empty(),
    }
}

/// Every entry that the selection can reach: the group without a yellow
/// letter, then the chain of groups that follows it.
pub open spec fn reachable(entries: Seq<Scored>) -> Seq<Scored> {
    members(entries, Seq::empty()) + chain(entries, Seq::empty())
}

/// The first `k` of `all`, or the whole of it where it is shorter.
pub open spec fn capped(all: Seq<Scored>, k: nat) -> Seq<Scored> {
    if k <= all.len() {
        all.take(k as int)
    } else {
        all
    }
}

/// The selection of up to `k` entries: the first `k` of the reachable
/// entries, or all of them where they are fewer.
pub open spec fn selection(entries: Seq<Scored>, k: nat) -> Seq<Scored> {
    capped(reachable(entries), k)
}

/// The entries of one constraint, in the order in which they came.
#[derive(Debug)]
pub struct Group {
    pub constraint: Constraint,
    pub members: Vec<(Word, Feedback)>,
}

/// Whether `r` names the group that follows the constraint `key`: a group
/// that is compatible with `key`, as large as any compatible group and
/// larger than every compatible group before it; or no group, where none is
/// compatible.
pub open spec fn is_next_group(groups: Seq<Group>, key: Seq<u8>, r: Option<usize>) -> bool {
    match r {
        Some(g) => {
            &&& g < groups.len()
            &&& compatible(key, groups[g as int].constraint@)
            &&& forall|h: int|
                0 <= h < groups.len() && compatible(key, #[trigger] groups[h].constraint@)
                    ==> groups[h].members@.len() <= groups[g as int].members@.len()
            &&& forall|h: int|
                0 <= h < g && compatible(key, #[trigger] groups[h].constraint@)
                    ==> groups[h].members@.len() < groups[g as int].members@.len()
        },
        None => forall|h: int|
            0 <= h < groups.len() ==> !compatible(key, #[trigger] groups[h].constraint@),
    }
}

/// The group that follows the constraint `key`, by its place in `groups`:
/// of the groups whose constraint is compatible with `key`, the largest, and
/// the first of the largest. `None` where no group is compatible.
pub fn next_group_of_guesses(groups: &Vec<Group>, key: &Constraint) -> (r: Option<usize>)
    ensures
        is_next_group(groups@, key@, r),
{
    let mut best: Option<usize> = None;
    let mut h: usize = 0;
    while h < groups.len()
        invariant
            h <= groups@.len(),
            match best {
                Some(g) => {
                    &&& g < h
                    &&& compatible(key@, groups@[g as int].constraint@)
                    &&& forall|x: int|
                        0 <= x < h && compatible(key@, #[trigger] groups@[x].constraint@)
                            ==> groups@[x].members@.len() <= groups@[g as int].members@.len()
                    &&& forall|x: int|
                        0 <= x < g && compatible(key@, #[trigger] groups@[x].constraint@)
                            ==> groups@[x].members@.len() < groups@[g as int].members@.len()
                },
                None => forall|x: int|
                    0 <= x < h ==> !compatible(key@, #[trigger] groups@[x].constraint@),
            },
        decreases groups@.len() - h,
    {
        if key.is_compatible(&groups[h].constraint) {
            match best {
                Some(g) => {
                    if groups[h].members.len() > groups[g].members.len() {
                        best = Some(h);
                    }
                },
                None => {
                    best = Some(h);
                },
            }
        }
        h += 1;
    }
    best
}

/// The groups hold `entries` by constraint, in the order in which the
/// constraints first appear: `first` gives, for each group, the entry that
/// opens it, and `owner`, for each entry, its group.
spec fn grouped(groups: Seq<Group>, entries: Seq<Scored>, first: Seq<int>, owner: Seq<int>) -> bool {
    &&& first.len() == groups.len()
    &&& owner.len() == entries.len()
    &&& forall|g: int|
        0 <= g < groups.len() ==> 0 <= #[trigger] first[g] < entries.len() && key_of(
            entries[first[g]],
        ) == groups[g].constraint@
    &&& forall|g: int, j: int|
        0 <= g < groups.len() && 0 <= j < first[g] ==> #[trigger] key_of(entries[j])
            != #[trigger] groups[g].constraint@
    &&& forall|g: int, h: int| 0 <= g < h < groups.len() ==> #[trigger] first[g] < #[trigger] first[h]
    &&& forall|g: int|
        0 <= g < groups.len() ==> scored((#[trigger] groups[g]).members@) == members(
            entries,
            groups[g].constraint@,
        )
    &&& forall|j: int|
        0 <= j < entries.len() ==> 0 <= #[trigger] owner[j] < groups.len()
            && groups[owner[j]].constraint@ == key_of(entries[j])
}

proof fn lemma_members_step(entries: Seq<Scored>, i: int, key: Seq<u8>)
    requires
        0 <= i < entries.len(),
    ensures
        members(entries.take(i + 1), key) == if key_of(entries[i]) == key {
            members(entries.take(i), key).push(entries[i])
        } else {
            members(entries.take(i), key)
        },
{
    assert(entries.take(i + 1).drop_last() =~= entries.take(i));
}

proof fn lemma_members_none(entries: Seq<Scored>, key: Seq<u8>)
    requires
        forall|j: int| 0 <= j < entries.len() ==> #[trigger] key_of(entries[j]) != key,
    ensures
        members(entries, key) == Seq::<Scored>::empty(),
    decreases entries.len(),
{
    if entries.len() > 0 {
        let front = entries.drop_last();
        assert forall|j: int| 0 <= j < front.len() implies #[trigger] key_of(front[j]) != key by {
            assert(front[j] == entries[j]);
        }
        lemma_members_none(front, key);
        assert(key_of(entries[entries.len() - 1]) != key);
    }
}

fn position_of(groups: &Vec<Group>, key: &Constraint) -> (r: Option<usize>)
    ensures
        match r {
            Some(g) => g < groups@.len() && groups@[g as int].constraint@ == key@,
            None => forall|h: int| 0 <= h < groups@.len() ==> (#[trigger] groups@[h]).constraint@ != key@,
        },
{
    let mut g: usize = 0;
    while g < groups.len()
        invariant
            g <= groups@.len(),
            forall|h: int| 0 <= h < g ==> (#[trigger] groups@[h]).constraint@ != key@,
        decreases groups@.len() - g,
    {
        if groups[g].constraint.same(key) {
            return Some(g);
        }
        g += 1;
    }
    None
}

fn group_entries(entries: &[(Word, Feedback)]) -> (r: (
    Vec<Group>,
    Ghost<Seq<int>>,
    Ghost<Seq<int>>,
))
    ensures
        grouped(r.0@, scored(entries@), r.1@, r.2@),
{
    let ghost all = scored(entries@);
    let mut groups: Vec<Group> = Vec::new();
    let ghost mut first: Seq<int> = Seq::empty();
    let ghost mut owner: Seq<int> = Seq::empty();
    let mut i: usize = 0;
    while i < entries.len()
        invariant
            i <= entries@.len(),
            all == scored(entries@),
            grouped(groups@, all.take(i as int), first, owner),
        decreases entries@.len() - i,
    {
        let ghost seen = all.take(i as int);
        let ghost more = all.take(i + 1);
        let (w, f) = entries[i];
        let key = Constraint::from_word_and_feedback(&w, &f);
        assert(all[i as int] == (w@, f@));
        assert(key@ == key_of(all[i as int]));
        let ghost before = groups@;
        let place = position_of(&groups, &key);
        let ghost found = place is Some;
        let ghost g: int = match place {
            Some(g) => g as int,
            None => groups@.len() as int,
        };
        match place {
            Some(g) => {
                groups[g].members.push((w, f));
            },
            None => {
                let mut only: Vec<(Word, Feedback)> = Vec::new();
                only.push((w, f));
                groups.push(Group { constraint: key, members: only });
                proof {
                    first = first.push(i as int);
                }
            },
        }
        proof {
            owner = owner.push(g);
            assert forall|j: int| 0 <= j < more.len() implies more[j] == all[j] by {}
            assert forall|j: int| 0 <= j < seen.len() implies seen[j] == all[j] by {}
            assert forall|h: int| 0 <= h < groups@.len() implies scored(
                (#[trigger] groups@[h]).members@,
            ) == members(more, groups@[h].constraint@) by {
                lemma_members_step(all, i as int, groups@[h].constraint@);
                assert(all.take(i + 1) == more);
                if found {
                    if h == g {
                        assert(scored(groups@[h].members@) =~= scored(before[h].members@).push(
                            all[i as int],
                        ));
                    } else {
                        assert(groups@[h] == before[h]);
                        assert(before[h].constraint@ != key@) by {
                            if first[h] < first[g] {
                                assert(key_of(seen[first[h]]) != before[g].constraint@);
                            } else {
                                assert(key_of(seen[first[g]]) != before[h].constraint@);
                            }
                        }
                    }
                } else {
                    if h == g {
                        assert forall|j: int| 0 <= j < seen.len() implies #[trigger] key_of(seen[j])
                            != key@ by {
                            assert(before[owner[j]].constraint@ == key_of(seen[j]));
                        }
                        lemma_members_none(seen, key@);
                        assert(scored(groups@[h].members@) =~= Seq::<Scored>::empty().push(
                            all[i as int],
                        ));
                    } else {
                        assert(groups@[h] == before[h]);
                    }
                }
            }
            assert forall|h: int, j: int| 0 <= h < groups@.len() && 0 <= j < first[h] implies #[trigger] key_of(
                more[j],
            ) != #[trigger] groups@[h].constraint@ by {
                assert(more[j] == seen[j]);
                if h < before.len() {
                    assert(groups@[h].constraint@ == before[h].constraint@);
                    assert(key_of(seen[j]) != before[h].constraint@);
                } else {
                    assert(before[owner[j]].constraint@ == key_of(seen[j]));
                }
            }
            assert(grouped(groups@, more, first, owner));
        }
        i += 1;
    }
    assert(all.take(entries@.len() as int) =~= all);
    (groups, Ghost(first), Ghost(owner))
}

proof fn lemma_members_some(entries: Seq<Scored>, j: int)
    requires
        0 <= j < entries.len(),
    ensures
        members(entries, key_of(entries[j])).len() > 0,
    decreases entries.len(),
{
    if j < entries.len() - 1 {
        assert(entries.drop_last()[j] == entries[j]);
        lemma_members_some(entries.drop_last(), j);
    }
}

proof fn lemma_next_is_unique(entries: Seq<Scored>, cur: Seq<u8>, i: int, j: int)
    requires
        is_next(entries, cur, i),
        is_next(entries, cur, j),
    ensures
        i == j,
{
    if i < j {
        assert(compatible(cur, key_of(entries[i])));
        assert(compatible(cur, key_of(entries[j])));
    } else if j < i {
        assert(compatible(cur, key_of(entries[i])));
        assert(compatible(cur, key_of(entries[j])));
    }
}

proof fn lemma_next_group(
    groups: Seq<Group>,
    entries: Seq<Scored>,
    first: Seq<int>,
    owner: Seq<int>,
    cur: Seq<u8>,
    r: Option<usize>,
)
    requires
        grouped(groups, entries, first, owner),
        is_next_group(groups, cur, r),
    ensures
        match r {
            Some(g) => next_key(entries, cur) == Some(groups[g as int].constraint@) && members(
                entries,
                groups[g as int].constraint@,
            ).len() > 0,
            None => next_key(entries, cur) is None,
        },
{
    match r {
        Some(g) => {
            let g = g as int;
            let i = first[g];
            let key = groups[g].constraint@;
            assert(scored(groups[g].members@).len() == groups[g].members@.len());
            assert forall|j: int|
                0 <= j < entries.len() && compatible(cur, #[trigger] key_of(entries[j])) implies members(
                entries,
                key_of(entries[j]),
            ).len() <= members(entries, key_of(entries[i])).len() by {
                let h = owner[j];
                assert(compatible(cur, groups[h].constraint@));
                assert(scored(groups[h].members@).len() == groups[h].members@.len());
            }
            assert forall|j: int|
                0 <= j < i && compatible(cur, #[trigger] key_of(entries[j])) implies members(
                entries,
                key_of(entries[j]),
            ).len() < members(entries, key_of(entries[i])).len() by {
                let h = owner[j];
                assert(compatible(cur, groups[h].constraint@));
                assert(scored(groups[h].members@).len() == groups[h].members@.len());
                if h >= g {
                    if h > g {
                        assert(first[g] < first[h]);
                    }
                    assert(j < first[h]);
                    assert(key_of(entries[j]) != groups[h].constraint@);
                }
            }
            assert(is_next(entries, cur, i));
            let c = choose|c: int| is_next(entries, cur, c);
            lemma_next_is_unique(entries, cur, i, c);
            lemma_members_some(entries, i);
        },
        None => {
            assert forall|i: int| !is_next(entries, cur, i) by {
                if 0 <= i < entries.len() {
                    let h = owner[i];
                    assert(!compatible(cur, groups[h].constraint@));
                }
            }
        },
    }
}

fn append_upto(res: &mut Vec<(Word, Feedback)>, from: &Vec<(Word, Feedback)>, k: usize)
    requires
        old(res)@.len() <= k,
    ensures
        final(res)@.len() <= k,
        final(res)@ == old(res)@ + if k - old(res)@.len() <= from@.len() {
            from@.take(k - old(res)@.len())
        } else {
            from@
        },
{
    let ghost start = res@;
    let mut i: usize = 0;
    while i < from.len() && res.len() < k
        invariant
            i <= from@.len(),
            res@ == start + from@.take(i as int),
            res@.len() <= k,
        decreases from@.len() - i,
    {
        res.push(from[i]);
        assert(from@.take(i + 1) =~= from@.take(i as int).push(from@[i as int]));
        assert(start + from@.take(i + 1) =~= (start + from@.take(i as int)).push(from@[i as int]));
        i += 1;
    }
    assert(from@.take(from@.len() as int) =~= from@);
}

/// Up to `k` of the entries. The entries are grouped by constraint. The
/// group without a yellow letter comes first; then, as long as fewer than
/// `k` entries are chosen, the largest group whose constraint has every
/// letter of the last one and more (the first of the largest). The result
/// is cut at `k` entries.
pub fn select(entries: &[(Word, Feedback)], k: usize) -> (r: Vec<(Word, Feedback)>)
    ensures
        scored(r@) == selection(scored(entries@), k as nat),
        r@.len() <= k,
        r@.len() < k ==> scored(r@) == reachable(scored(entries@)),
{
    let ghost all = scored(entries@);
    let (groups, Ghost(first), Ghost(owner)) = group_entries(entries);
    let start = Constraint::empty();
    let mut res: Vec<(Word, Feedback)> = Vec::new();
    let ghost mut done = members(all, start@);
    match position_of(&groups, &start) {
        Some(g) => {
            append_upto(&mut res, &groups[g].members, k);
            assert(scored(res@) =~= capped(done, k as nat));
        },
        None => {
            proof {
                assert forall|j: int| 0 <= j < all.len() implies #[trigger] key_of(all[j])
                    != start@ by {
                    assert(groups@[owner[j]].constraint@ == key_of(all[j]));
                }
                lemma_members_none(all, start@);
            }
            assert(scored(res@) =~= capped(done, k as nat));
        },
    }
    let mut cur: &Constraint = &start;
    while res.len() < k
        invariant
            all == scored(entries@),
            grouped(groups@, all, first, owner),
            reachable(all) == done + chain(all, cur@),
            scored(res@) == capped(done, k as nat),
            res@.len() <= k,
        decreases k - res@.len(),
    {
        assert(scored(res@).len() == res@.len());
        assert(scored(res@) == done);
        let next = next_group_of_guesses(&groups, cur);
        proof {
            lemma_next_group(groups@, all, first, owner, cur@, next);
        }
        match next {
            Some(g) => {
                let ghost key = groups@[g as int].constraint@;
                let ghost had = res@;
                assert(chain(all, cur@) == members(all, key) + chain(all, key));
                cur = &groups[g].constraint;
                append_upto(&mut res, &groups[g].members, k);
                proof {
                    let got = groups@[g as int].members@;
                    assert(scored(got) == members(all, key));
                    assert(scored(got).len() == got.len());
                    let t = if k - had.len() <= got.len() {
                        k - had.len()
                    } else {
                        got.len() as int
                    };
                    assert(res@ == had + got.take(t)) by {
                        assert(got.take(got.len() as int) =~= got);
                    }
                    assert(scored(res@) =~= done + members(all, key).take(t));
                    let grown = done + members(all, key);
                    assert(scored(res@) =~= capped(grown, k as nat));
                    assert(reachable(all) =~= grown + chain(all, key));
                    done = grown;
                }
            },
            None => {
                assert(chain(all, cur@) == Seq::<Scored>::empty());
                assert(reachable(all) =~= done);
                return res;
            },
        }
    }
    proof {
        assert(scored(res@).len() == res@.len());
        assert(reachable(all).take(k as int) =~= done.take(k as int));
    }
    res
}

/// Up to `k` guesses for `solution` from the pool `words`: of the words
/// whose feedback against the solution passes `matcher`, those that `select`
/// chooses, each with its feedback.
pub fn find_guesses(words: &[Word], solution: &Word, matcher: &Matcher, k: usize) -> (r: Vec<
    (Word, Feedback),
>)
    ensures
        scored(r@) == selection(survivors(lettered(words@), solution@, matcher@), k as nat),
        r@.len() <= k,
        r@.len() < k ==> scored(r@) == reachable(
            survivors(lettered(words@), solution@, matcher@),
        ),
{
    let ghost pool = lettered(words@);
    let mut passed: Vec<(Word, Feedback)> = Vec::new();
    let mut i: usize = 0;
    while i < words.len()
        invariant
            i <= words@.len(),
            pool == lettered(words@),
            scored(passed@) == survivors(pool.take(i as int), solution@, matcher@),
        decreases words@.len() - i,
    {
        let w = words[i];
        let f = Feedback::from_word(&w, solution);
        let ghost before = passed@;
        if matcher.matches(&f) {
            passed.push((w, f));
        }
        proof {
            assert(pool.take(i + 1).drop_last() =~= pool.take(i as int));
            assert(pool.take(i + 1).last() == w@);
            if accepts_all(matcher@, f@) {
                assert(scored(passed@) =~= scored(before).push((w@, f@)));
            }
        }
        i += 1;
    }
    assert(pool.take(words@.len() as int) =~= pool);
    select(passed.as_slice(), k)
}

} // verus!
