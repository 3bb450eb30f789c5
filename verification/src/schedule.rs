//! The order in which the renames of a plan can be carried out one by one
//! without ever renaming a folder to a name that another folder still has.

use crate::entities::FolderList;
use crate::entities::FolderRenameInstruction;
use crate::entities::NameShape;
use crate::entities::RenameOp;
use vstd::prelude::*;
use vstd::string::StrSliceExecFns;
use vstd::string::StringExecFns;

verus! {

/// One rename: the folder named `from` gets the name `to`.
pub struct Move {
    pub from: Seq<char>,
    pub to: Seq<char>,
}

/// A directory: each name in use, with the folder that has it.
pub type Directory = Map<Seq<char>, int>;

/// Whether `name` is the present name of a folder that `moves` renames.
pub open spec fn is_source(moves: Seq<Move>, name: Seq<char>) -> bool {
    exists|i: int| 0 <= i < moves.len() && (#[trigger] moves[i]).from == name
}

/// Whether `name` is a name that `moves` gives to a folder.
pub open spec fn is_goal(moves: Seq<Move>, name: Seq<char>) -> bool {
    exists|i: int| 0 <= i < moves.len() && (#[trigger] moves[i]).to == name
}

/// A move of `moves` that gives the name `name`.
pub open spec fn giver(moves: Seq<Move>, name: Seq<char>) -> int {
    choose|i: int| 0 <= i < moves.len() && (#[trigger] moves[i]).to == name
}

/// Whether the directory `dir` lets `m` be carried out: the folder is
/// there, and the new name is free.
pub open spec fn can_move(dir: Directory, m: Move) -> bool {
    dir.dom().contains(m.from) && !dir.dom().contains(m.to)
}

/// The directory after `m`.
pub open spec fn moved(dir: Directory, m: Move) -> Directory {
    dir.remove(m.from).insert(m.to, dir[m.from])
}

/// Whether `steps` can be carried out on `dir` one after the other, each
/// finding its folder in place and its new name free.
pub open spec fn runs(dir: Directory, steps: Seq<Move>) -> bool
    decreases steps.len(),
{
    steps.len() == 0 || (can_move(dir, steps[0]) && runs(moved(dir, steps[0]), steps.skip(1)))
}

/// The directory after `steps`, one after the other.
pub open spec fn outcome(dir: Directory, steps: Seq<Move>) -> Directory
    decreases steps.len(),
{
    if steps.len() == 0 {
        dir
    } else {
        outcome(moved(dir, steps[0]), steps.skip(1))
    }
}

/// The directory that `moves` ask for, all at once: each folder that is
/// renamed has its new name, and every other folder the name it had.
pub open spec fn settled(dir: Directory, moves: Seq<Move>) -> Directory {
    Map::new(
        |name: Seq<char>|
            is_goal(moves, name) || (dir.dom().contains(name) && !is_source(moves, name)),
        |name: Seq<char>|
            if is_goal(moves, name) {
                dir[moves[giver(moves, name)].from]
            } else {
                dir[name]
            },
    )
}

/// Whether `moves` can be asked of `dir`: each renames a folder of its own
/// that is there, each gives a name of its own, none leaves a name as it
/// is, and a new name that is in use belongs to a folder that is renamed
/// too.
pub open spec fn applicable(dir: Directory, moves: Seq<Move>) -> bool {
    &&& forall|i: int| 0 <= i < moves.len() ==> (#[trigger] moves[i]).from != moves[i].to
    &&& forall|i: int, j: int|
        0 <= i < j < moves.len() ==> (#[trigger] moves[i]).from != (#[trigger] moves[j]).from
    &&& forall|i: int, j: int|
        0 <= i < j < moves.len() ==> (#[trigger] moves[i]).to != (#[trigger] moves[j]).to
    &&& forall|i: int| 0 <= i < moves.len() ==> dir.dom().contains((#[trigger] moves[i]).from)
    &&& forall|i: int|
        0 <= i < moves.len() && dir.dom().contains((#[trigger] moves[i]).to) ==> is_source(
            moves,
            moves[i].to,
        )
}

/// Whether no name of `dir` or of `moves` has more than `longest`
/// characters.
pub open spec fn bounded(dir: Directory, moves: Seq<Move>, longest: nat) -> bool {
    &&& forall|name: Seq<char>| #[trigger] dir.dom().contains(name) ==> name.len() <= longest
    &&& forall|i: int| 0 <= i < moves.len() ==> (#[trigger] moves[i]).from.len() <= longest
    &&& forall|i: int| 0 <= i < moves.len() ==> (#[trigger] moves[i]).to.len() <= longest
}

/// Whether the move at `i` can go first: no folder that is still to be
/// renamed has the name it gives.
pub open spec fn is_free(moves: Seq<Move>, i: int) -> bool {
    !is_source(moves, moves[i].to)
}

/// The first move from `i` on that can go first; the length of `moves`
/// where there is none.
pub open spec fn next_free(moves: Seq<Move>, i: int) -> int
    decreases moves.len() - i,
{
    if i >= moves.len() {
        moves.len() as int
    } else if is_free(moves, i) {
        i
    } else {
        next_free(moves, i + 1)
    }
}

/// A name that no folder has: `from` with `~` added until it is one longer
/// than `longest`.
pub open spec fn spare_name(from: Seq<char>, longest: nat) -> Seq<char> {
    from + Seq::new(
        if from.len() <= longest {
            (longest + 1 - from.len()) as nat
        } else {
            1
        },
        |i: int| '~',
    )
}

/// The steps that carry out `moves` one by one, where no name in use has
/// more than `longest` characters.
///
/// As long as a move can go first, the first such move does. Where none
/// can, the moves that are left form cycles: the folder of the first move
/// is put aside under a spare name, the rest is carried out, and the folder
/// then gets its name from there.
pub open spec fn scheduled(moves: Seq<Move>, longest: nat) -> Seq<Move>
    decreases moves.len(),
{
    if moves.len() == 0 {
        Seq::empty()
    } else {
        let i = next_free(moves, 0);
        if 0 <= i < moves.len() {
            seq![moves[i]] + scheduled(moves.remove(i), longest)
        } else {
            let spare = spare_name(moves[0].from, longest);
            seq![Move { from: moves[0].from, to: spare }] + scheduled(
                moves.remove(0),
                longest + 1,
            ) + seq![Move { from: spare, to: moves[0].to }]
        }
    }
}

/// `next_free` finds a free move, the first from `i` on, or none.
pub proof fn lemma_next_free(moves: Seq<Move>, i: int)
    requires
        0 <= i <= moves.len(),
    ensures
        i <= next_free(moves, i) <= moves.len(),
        next_free(moves, i) < moves.len() ==> is_free(moves, next_free(moves, i)),
        forall|j: int| i <= j < next_free(moves, i) ==> !is_free(moves, j),
    decreases moves.len() - i,
{
    if i < moves.len() && !is_free(moves, i) {
        lemma_next_free(moves, i + 1);
    }
}

/// Steps put behind one another run one after the other.
pub proof fn lemma_runs_concat(dir: Directory, a: Seq<Move>, b: Seq<Move>)
    ensures
        runs(dir, a + b) == (runs(dir, a) && runs(outcome(dir, a), b)),
        outcome(dir, a + b) == outcome(outcome(dir, a), b),
    decreases a.len(),
{
    if a.len() == 0 {
        assert(a + b =~= b);
    } else {
        assert((a + b)[0] == a[0]);
        assert((a + b).skip(1) =~= a.skip(1) + b);
        lemma_runs_concat(moved(dir, a[0]), a.skip(1), b);
    }
}

/// What one step does.
pub proof fn lemma_runs_one(dir: Directory, m: Move)
    ensures
        runs(dir, seq![m]) == can_move(dir, m),
        outcome(dir, seq![m]) == moved(dir, m),
{
    let s = seq![m];
    assert(s.skip(1) =~= Seq::<Move>::empty());
    assert(s[0] == m);
    assert(runs(moved(dir, m), s.skip(1)));
    assert(outcome(moved(dir, m), s.skip(1)) == moved(dir, m));
}

/// Taking one move out of moves that can be asked of a directory, and
/// carrying it out or putting its folder aside under a name that nothing
/// has or is given, leaves moves that can be asked of what the directory
/// then is.
proof fn lemma_rest_applicable(dir: Directory, moves: Seq<Move>, i: int, to: Seq<char>)
    requires
        applicable(dir, moves),
        0 <= i < moves.len(),
        !dir.dom().contains(to),
        to == moves[i].to || !is_goal(moves, to),
        !is_source(moves, to),
    ensures
        applicable(moved(dir, Move { from: moves[i].from, to }), moves.remove(i)),
        !is_source(moves.remove(i), moves[i].from),
        !is_goal(moves.remove(i), moves[i].to),
        forall|name: Seq<char>|
            name != moves[i].from ==> is_source(moves.remove(i), name) == is_source(moves, name),
        forall|name: Seq<char>|
            name != moves[i].to ==> is_goal(moves.remove(i), name) == is_goal(moves, name),
{
    let rest = moves.remove(i);
    let after = moved(dir, Move { from: moves[i].from, to });
    let back = |j: int|
        if j < i {
            j
        } else {
            j + 1
        };
    assert forall|j: int| 0 <= j < rest.len() implies #[trigger] rest[j] == moves[back(j)] by {}
    assert forall|name: Seq<char>| is_source(rest, name) implies is_source(moves, name) && name
        != moves[i].from by {
        let j = choose|j: int| 0 <= j < rest.len() && (#[trigger] rest[j]).from == name;
        assert(moves[back(j)].from == name);
    }
    assert forall|name: Seq<char>| is_goal(rest, name) implies is_goal(moves, name) && name
        != moves[i].to by {
        let j = choose|j: int| 0 <= j < rest.len() && (#[trigger] rest[j]).to == name;
        assert(moves[back(j)].to == name);
    }
    assert forall|name: Seq<char>|
        name != moves[i].from && is_source(moves, name) implies is_source(rest, name) by {
        let j = choose|j: int| 0 <= j < moves.len() && (#[trigger] moves[j]).from == name;
        let k = if j < i {
            j
        } else {
            j - 1
        };
        assert(rest[k].from == name);
    }
    assert forall|name: Seq<char>| name != moves[i].to && is_goal(moves, name) implies is_goal(
        rest,
        name,
    ) by {
        let j = choose|j: int| 0 <= j < moves.len() && (#[trigger] moves[j]).to == name;
        let k = if j < i {
            j
        } else {
            j - 1
        };
        assert(rest[k].to == name);
    }
    assert forall|j: int| 0 <= j < rest.len() implies after.dom().contains(
        (#[trigger] rest[j]).from,
    ) by {
        assert(rest[j] == moves[back(j)]);
    }
    assert forall|j: int|
        0 <= j < rest.len() && after.dom().contains((#[trigger] rest[j]).to) implies is_source(
        rest,
        rest[j].to,
    ) by {
        assert(rest[j] == moves[back(j)]);
        assert(is_goal(moves, rest[j].to));
        assert(rest[j].to != to);
        assert(is_source(moves, rest[j].to));
    }
    assert forall|j: int, k: int| 0 <= j < k < rest.len() implies (#[trigger] rest[j]).from != (
    #[trigger] rest[k]).from by {
        assert(rest[j] == moves[back(j)] && rest[k] == moves[back(k)]);
    }
    assert forall|j: int, k: int| 0 <= j < k < rest.len() implies (#[trigger] rest[j]).to != (
    #[trigger] rest[k]).to by {
        assert(rest[j] == moves[back(j)] && rest[k] == moves[back(k)]);
    }
    assert forall|j: int| 0 <= j < rest.len() implies (#[trigger] rest[j]).from != rest[j].to by {
        assert(rest[j] == moves[back(j)]);
    }
}

/// The move that gives a name is the only one that does.
proof fn lemma_giver(moves: Seq<Move>, i: int)
    requires
        0 <= i < moves.len(),
        forall|a: int, b: int|
            0 <= a < b < moves.len() ==> (#[trigger] moves[a]).to != (#[trigger] moves[b]).to,
    ensures
        is_goal(moves, moves[i].to),
        giver(moves, moves[i].to) == i,
{
    let g = giver(moves, moves[i].to);
    assert(0 <= g < moves.len() && moves[g].to == moves[i].to);
    if g < i {
        assert(moves[g].to != moves[i].to);
    } else if i < g {
        assert(moves[i].to != moves[g].to);
    }
}

/// The steps of `scheduled` run, each finding its new name free, and leave
/// the directory as the moves ask: whatever the directory, where the moves
/// can be asked of it and no name in play is longer than `longest`.
pub proof fn lemma_scheduled_settles(dir: Directory, moves: Seq<Move>, longest: nat)
    requires
        applicable(dir, moves),
        bounded(dir, moves, longest),
    ensures
        runs(dir, scheduled(moves, longest)),
        outcome(dir, scheduled(moves, longest)) == settled(dir, moves),
    decreases moves.len(),
{
    if moves.len() == 0 {
        assert(settled(dir, moves) =~= dir);
    } else {
        lemma_next_free(moves, 0);
        let i = next_free(moves, 0);
        if i < moves.len() {
            let m = moves[i];
            let rest = moves.remove(i);
            let after = moved(dir, m);
            assert(!dir.dom().contains(m.to));
            lemma_rest_applicable(dir, moves, i, m.to);
            assert forall|name: Seq<char>| #[trigger]
                after.dom().contains(name) implies name.len() <= longest by {}
            assert(bounded(after, rest, longest)) by {
                assert forall|j: int| 0 <= j < rest.len() implies (#[trigger] rest[j]).from.len()
                    <= longest && rest[j].to.len() <= longest by {
                    let k = if j < i {
                        j
                    } else {
                        j + 1
                    };
                    assert(rest[j] == moves[k]);
                }
            }
            lemma_scheduled_settles(after, rest, longest);
            let tail = scheduled(rest, longest);
            lemma_runs_concat(dir, seq![m], tail);
            lemma_runs_one(dir, m);
            lemma_giver(moves, i);
            assert(settled(after, rest) =~= settled(dir, moves)) by {
                assert forall|name: Seq<char>| #[trigger]
                    settled(dir, moves).dom().contains(name) implies settled(
                    after,
                    rest,
                ).dom().contains(name) && settled(after, rest)[name] == settled(
                    dir,
                    moves,
                )[name] by {
                    lemma_settled_point(dir, moves, i, m.to, name);
                }
                assert forall|name: Seq<char>| #[trigger]
                    settled(after, rest).dom().contains(name) implies settled(
                    dir,
                    moves,
                ).dom().contains(name) by {
                    lemma_settled_point(dir, moves, i, m.to, name);
                }
            }
        } else {
            let m = moves[0];
            let spare = spare_name(m.from, longest);
            let aside = Move { from: m.from, to: spare };
            let back = Move { from: spare, to: m.to };
            let rest = moves.remove(0);
            let after = moved(dir, aside);
            assert(spare.len() == longest + 1);
            assert(!dir.dom().contains(spare));
            assert(!is_goal(moves, spare)) by {
                if is_goal(moves, spare) {
                    let g = giver(moves, spare);
                    assert(moves[g].to.len() <= longest);
                }
            }
            assert(!is_source(moves, spare)) by {
                if is_source(moves, spare) {
                    let g = choose|j: int|
                        0 <= j < moves.len() && (#[trigger] moves[j]).from == spare;
                    assert(moves[g].from.len() <= longest);
                }
            }
            lemma_rest_applicable(dir, moves, 0, spare);
            assert(bounded(after, rest, longest + 1)) by {
                assert forall|j: int| 0 <= j < rest.len() implies (#[trigger] rest[j]).from.len()
                    <= longest + 1 && rest[j].to.len() <= longest + 1 by {
                    assert(rest[j] == moves[j + 1]);
                }
                assert forall|name: Seq<char>| #[trigger]
                    after.dom().contains(name) implies name.len() <= longest + 1 by {}
            }
            lemma_scheduled_settles(after, rest, longest + 1);
            let middle = scheduled(rest, longest + 1);
            let calm = settled(after, rest);
            lemma_runs_one(dir, aside);
            lemma_runs_concat(dir, seq![aside], middle);
            lemma_runs_concat(dir, seq![aside] + middle, seq![back]);
            lemma_runs_one(calm, back);
            lemma_giver(moves, 0);
            // The folder put aside is still there, and its name has been left.
            assert(!is_free(moves, 0));
            assert(is_source(moves, m.to));
            assert(is_source(rest, m.to));
            assert(calm.dom().contains(spare));
            assert(!calm.dom().contains(m.to));
            assert(calm[spare] == dir[m.from]);
            assert(moved(calm, back) =~= settled(dir, moves)) by {
                assert forall|name: Seq<char>| #[trigger]
                    settled(dir, moves).dom().contains(name) implies moved(
                    calm,
                    back,
                ).dom().contains(name) && moved(calm, back)[name] == settled(dir, moves)[name] by {
                    lemma_settled_point(dir, moves, 0, spare, name);
                }
                assert forall|name: Seq<char>| #[trigger]
                    moved(calm, back).dom().contains(name) implies settled(
                    dir,
                    moves,
                ).dom().contains(name) by {
                    lemma_settled_point(dir, moves, 0, spare, name);
                }
            }
        }
    }
}

/// What the directory asked for holds at one name, before and after one
/// move is taken out and its folder given the name `to`.
proof fn lemma_settled_point(
    dir: Directory,
    moves: Seq<Move>,
    i: int,
    to: Seq<char>,
    name: Seq<char>,
)
    requires
        applicable(dir, moves),
        0 <= i < moves.len(),
        !dir.dom().contains(to),
        to == moves[i].to || !is_goal(moves, to),
        !is_source(moves, to),
    ensures
        ({
            let after = moved(dir, Move { from: moves[i].from, to });
            let rest = moves.remove(i);
            &&& name != to && name != moves[i].to ==> (settled(after, rest).dom().contains(name)
                <==> settled(dir, moves).dom().contains(name))
            &&& name != to && name != moves[i].to && settled(dir, moves).dom().contains(name)
                ==> settled(after, rest)[name] == settled(dir, moves)[name]
            &&& settled(after, rest).dom().contains(to)
            &&& settled(after, rest)[to] == dir[moves[i].from]
            &&& settled(dir, moves).dom().contains(moves[i].to)
            &&& settled(dir, moves)[moves[i].to] == dir[moves[i].from]
            &&& to != moves[i].to ==> !settled(dir, moves).dom().contains(to)
            &&& to != moves[i].to ==> (settled(after, rest).dom().contains(moves[i].to)
                <==> false)
        }),
{
    let after = moved(dir, Move { from: moves[i].from, to });
    let rest = moves.remove(i);
    lemma_rest_applicable(dir, moves, i, to);
    lemma_giver(moves, i);
    assert(!is_goal(rest, to));
    if name != to && name != moves[i].to {
        if is_goal(moves, name) {
            let g = giver(moves, name);
            assert(is_goal(rest, name));
            let h = giver(rest, name);
            let hh = if h < i {
                h
            } else {
                h + 1
            };
            assert(rest[h] == moves[hh]);
            if g < hh {
                assert(moves[g].to != moves[hh].to);
            } else if hh < g {
                assert(moves[hh].to != moves[g].to);
            }
            assert(g == hh);
            assert(moves[g].from != moves[i].from) by {
                if g < i {
                    assert(moves[g].from != moves[i].from);
                } else {
                    assert(moves[i].from != moves[g].from);
                }
            }
            assert(moves[g].from != to);
        }
    }
    if to != moves[i].to {
        // The name left behind belongs to a folder that is still to move.
        if dir.dom().contains(moves[i].to) {
            assert(is_source(moves, moves[i].to));
            assert(moves[i].to != moves[i].from);
        }
    }
}

/// One rename to carry out: the folder named `from` gets the name `to`.
#[derive(Debug, PartialEq, Eq)]
pub struct RenameStep {
    pub from: String,
    pub to: String,
}

impl View for RenameStep {
    type V = Move;

    open spec fn view(&self) -> Move {
        Move { from: self.from@, to: self.to@ }
    }
}

impl Clone for RenameStep {
    fn clone(&self) -> (copy: Self)
        ensures
            copy == *self,
    {
        RenameStep { from: self.from.clone(), to: self.to.clone() }
    }
}

/// What each step of a list asks for.
pub open spec fn steps_view(steps: Seq<RenameStep>) -> Seq<Move> {
    steps.map_values(|step: RenameStep| step@)
}

/// The renames of a plan that change a name, in the order of the plan.
pub open spec fn moves_of(plan: Seq<RenameOp>) -> Seq<Move>
    decreases plan.len(),
{
    if plan.len() == 0 {
        Seq::empty()
    } else if plan.last().from_text() != plan.last().to_text() {
        moves_of(plan.drop_last()).push(
            Move { from: plan.last().from_text(), to: plan.last().to_text() },
        )
    } else {
        moves_of(plan.drop_last())
    }
}

/// The larger of two lengths.
pub open spec fn longer(a: nat, b: nat) -> nat {
    if a >= b {
        a
    } else {
        b
    }
}

/// The length of the longest raw name among `entries`, and at least `least`.
pub open spec fn longest_entry(entries: Seq<NameShape>, least: nat) -> nat
    decreases entries.len(),
{
    if entries.len() == 0 {
        least
    } else {
        longer(longest_entry(entries.drop_last(), least), entries.last().text().len())
    }
}

/// The length of the longest name that `moves` take or give.
pub open spec fn longest_move(moves: Seq<Move>) -> nat
    decreases moves.len(),
{
    if moves.len() == 0 {
        0
    } else {
        longer(
            longest_move(moves.drop_last()),
            longer(moves.last().from.len(), moves.last().to.len()),
        )
    }
}

/// The steps that carry out `plan` in a directory that holds `entries`.
///
/// Instructions that leave a name as it is ask for no step. Spare names are
/// longer than every name of `entries` and of `plan`.
pub open spec fn schedule_of(plan: Seq<RenameOp>, entries: Seq<NameShape>) -> Seq<Move> {
    scheduled(moves_of(plan), longest_entry(entries, longest_move(moves_of(plan))))
}

/// No entry is longer than `longest_entry`, which is at least `least`.
pub proof fn lemma_longest_entry(entries: Seq<NameShape>, least: nat)
    ensures
        least <= longest_entry(entries, least),
        forall|i: int|
            0 <= i < entries.len() ==> (#[trigger] entries[i]).text().len() <= longest_entry(
                entries,
                least,
            ),
    decreases entries.len(),
{
    if entries.len() > 0 {
        lemma_longest_entry(entries.drop_last(), least);
        assert forall|i: int| 0 <= i < entries.len() implies (#[trigger] entries[i]).text().len()
            <= longest_entry(entries, least) by {
            if i < entries.len() - 1 {
                assert(entries.drop_last()[i] == entries[i]);
            }
        }
    }
}

/// No name of a move is longer than `longest_move`.
pub proof fn lemma_longest_move(moves: Seq<Move>)
    ensures
        forall|i: int|
            0 <= i < moves.len() ==> (#[trigger] moves[i]).from.len() <= longest_move(moves)
                && moves[i].to.len() <= longest_move(moves),
    decreases moves.len(),
{
    if moves.len() > 0 {
        lemma_longest_move(moves.drop_last());
        assert forall|i: int| 0 <= i < moves.len() implies (#[trigger] moves[i]).from.len()
            <= longest_move(moves) && moves[i].to.len() <= longest_move(moves) by {
            if i < moves.len() - 1 {
                assert(moves.drop_last()[i] == moves[i]);
            }
        }
    }
}

/// Carried out step by step as `schedule_of` says, a plan never renames a
/// folder to a name that is in use, and leaves every folder under the name
/// that the plan gives it: in every directory that holds no name besides
/// those of `entries` and of which the renames of the plan can be asked.
pub proof fn lemma_schedule_settles(
    dir: Directory,
    plan: Seq<RenameOp>,
    entries: Seq<NameShape>,
)
    requires
        applicable(dir, moves_of(plan)),
        forall|name: Seq<char>| #[trigger]
            dir.dom().contains(name) ==> exists|i: int|
                0 <= i < entries.len() && (#[trigger] entries[i]).text() == name,
    ensures
        runs(dir, schedule_of(plan, entries)),
        outcome(dir, schedule_of(plan, entries)) == settled(dir, moves_of(plan)),
{
    let moves = moves_of(plan);
    let longest = longest_entry(entries, longest_move(moves));
    lemma_longest_entry(entries, longest_move(moves));
    lemma_longest_move(moves);
    assert forall|name: Seq<char>| #[trigger] dir.dom().contains(name) implies name.len()
        <= longest by {
        let i = choose|i: int| 0 <= i < entries.len() && (#[trigger] entries[i]).text() == name;
        assert(entries[i].text().len() <= longest);
    }
    lemma_scheduled_settles(dir, moves, longest);
}

/// Whether each of `steps`, carried out on `dir` one after the other, finds
/// its new name free, for as long as the folders to rename are there. A
/// step whose folder is missing is refused, and none is tried after it.
pub open spec fn finds_free(dir: Directory, steps: Seq<Move>) -> bool
    decreases steps.len(),
{
    steps.len() == 0 || (!dir.dom().contains(steps[0].to) && (dir.dom().contains(steps[0].from)
        ==> finds_free(moved(dir, steps[0]), steps.skip(1))))
}

/// Whether nothing but folders that `moves` rename stands in the way of
/// `moves`: each gives a name of its own, none leaves a name as it is, and
/// a new name that is in use belongs to a folder that is renamed too.
/// Unlike `applicable`, this asks neither that the folders are there nor
/// that each is renamed once.
pub open spec fn unobstructed(dir: Directory, moves: Seq<Move>) -> bool {
    &&& forall|i: int| 0 <= i < moves.len() ==> (#[trigger] moves[i]).from != moves[i].to
    &&& forall|i: int, j: int|
        0 <= i < j < moves.len() ==> (#[trigger] moves[i]).to != (#[trigger] moves[j]).to
    &&& forall|i: int|
        0 <= i < moves.len() && dir.dom().contains((#[trigger] moves[i]).to) ==> is_source(
            moves,
            moves[i].to,
        )
}

/// Moves that can be asked of a directory have nothing in their way.
pub proof fn lemma_applicable_unobstructed(dir: Directory, moves: Seq<Move>)
    requires
        applicable(dir, moves),
    ensures
        unobstructed(dir, moves),
{
}

/// Steps that run find their new names free.
pub proof fn lemma_runs_finds_free(dir: Directory, steps: Seq<Move>)
    requires
        runs(dir, steps),
    ensures
        finds_free(dir, steps),
    decreases steps.len(),
{
    if steps.len() > 0 {
        lemma_runs_finds_free(moved(dir, steps[0]), steps.skip(1));
    }
}

/// One step finds its new name free where the name is free.
pub proof fn lemma_finds_free_one(dir: Directory, m: Move)
    ensures
        finds_free(dir, seq![m]) == !dir.dom().contains(m.to),
{
    let s = seq![m];
    assert(s[0] == m);
    assert(s.skip(1) =~= Seq::<Move>::empty());
    assert(finds_free(moved(dir, m), s.skip(1)));
}

/// Steps put behind one another find their new names free where the first
/// do and, if those run, the second do after them.
pub proof fn lemma_finds_free_concat(dir: Directory, a: Seq<Move>, b: Seq<Move>)
    ensures
        finds_free(dir, a + b) == (finds_free(dir, a) && (runs(dir, a) ==> finds_free(
            outcome(dir, a),
            b,
        ))),
    decreases a.len(),
{
    if a.len() == 0 {
        assert(a + b =~= b);
    } else {
        assert((a + b)[0] == a[0]);
        assert((a + b).skip(1) =~= a.skip(1) + b);
        lemma_finds_free_concat(moved(dir, a[0]), a.skip(1), b);
    }
}

/// A name that is free and that no step gives stays free.
pub proof fn lemma_stays_free(dir: Directory, steps: Seq<Move>, name: Seq<char>)
    requires
        !dir.dom().contains(name),
        forall|k: int| 0 <= k < steps.len() ==> (#[trigger] steps[k]).to != name,
    ensures
        !outcome(dir, steps).dom().contains(name),
    decreases steps.len(),
{
    if steps.len() > 0 {
        assert(steps[0].to != name);
        assert forall|k: int| 0 <= k < steps.skip(1).len() implies (#[trigger] steps.skip(
            1,
        )[k]).to != name by {
            assert(steps.skip(1)[k] == steps[k + 1]);
        }
        lemma_stays_free(moved(dir, steps[0]), steps.skip(1), name);
    }
}

/// A name that one of the steps takes from its folder and none gives is
/// free once the steps have run.
pub proof fn lemma_left_for_good(dir: Directory, steps: Seq<Move>, name: Seq<char>)
    requires
        runs(dir, steps),
        is_source(steps, name),
        forall|k: int| 0 <= k < steps.len() ==> (#[trigger] steps[k]).to != name,
    ensures
        !outcome(dir, steps).dom().contains(name),
    decreases steps.len(),
{
    let at = choose|k: int| 0 <= k < steps.len() && (#[trigger] steps[k]).from == name;
    assert(steps[0].to != name);
    let rest = steps.skip(1);
    assert forall|k: int| 0 <= k < rest.len() implies (#[trigger] rest[k]).to != name by {
        assert(rest[k] == steps[k + 1]);
    }
    if steps[0].from == name {
        lemma_stays_free(moved(dir, steps[0]), rest, name);
    } else {
        assert(rest[at - 1] == steps[at]);
        assert(is_source(rest, name));
        lemma_left_for_good(moved(dir, steps[0]), rest, name);
    }
}

/// The schedule takes every folder that the moves rename.
pub proof fn lemma_scheduled_takes(moves: Seq<Move>, longest: nat, name: Seq<char>)
    requires
        is_source(moves, name),
    ensures
        is_source(scheduled(moves, longest), name),
    decreases moves.len(),
{
    let at = choose|k: int| 0 <= k < moves.len() && (#[trigger] moves[k]).from == name;
    lemma_next_free(moves, 0);
    let i = next_free(moves, 0);
    let steps = scheduled(moves, longest);
    if i < moves.len() {
        let rest = moves.remove(i);
        let tail = scheduled(rest, longest);
        assert(steps == seq![moves[i]] + tail);
        if moves[i].from == name {
            assert(steps[0].from == name);
        } else {
            let k = if at < i {
                at
            } else {
                at - 1
            };
            assert(rest[k] == moves[at]);
            assert(is_source(rest, name));
            lemma_scheduled_takes(rest, longest, name);
            let j = choose|j: int| 0 <= j < tail.len() && (#[trigger] tail[j]).from == name;
            assert(steps[j + 1] == tail[j]);
        }
    } else {
        let spare = spare_name(moves[0].from, longest);
        let rest = moves.remove(0);
        let middle = scheduled(rest, longest + 1);
        let aside = Move { from: moves[0].from, to: spare };
        let back = Move { from: spare, to: moves[0].to };
        assert(steps == seq![aside] + middle + seq![back]);
        if moves[0].from == name {
            assert(steps[0].from == name);
        } else {
            assert(rest[at - 1] == moves[at]);
            assert(is_source(rest, name));
            lemma_scheduled_takes(rest, longest + 1, name);
            let j = choose|j: int| 0 <= j < middle.len() && (#[trigger] middle[j]).from == name;
            assert(steps[j + 1] == middle[j]);
        }
    }
}

/// The schedule gives no names but those that the moves give, and spare
/// names, which are longer than `longest`.
pub proof fn lemma_scheduled_gives(moves: Seq<Move>, longest: nat)
    ensures
        forall|k: int|
            0 <= k < scheduled(moves, longest).len() ==> is_goal(
                moves,
                (#[trigger] scheduled(moves, longest)[k]).to,
            ) || scheduled(moves, longest)[k].to.len() > longest,
    decreases moves.len(),
{
    let steps = scheduled(moves, longest);
    if moves.len() > 0 {
        lemma_next_free(moves, 0);
        let i = next_free(moves, 0);
        if i < moves.len() {
            let rest = moves.remove(i);
            let tail = scheduled(rest, longest);
            lemma_scheduled_gives(rest, longest);
            assert(steps == seq![moves[i]] + tail);
            assert forall|k: int| 0 <= k < steps.len() implies is_goal(
                moves,
                (#[trigger] steps[k]).to,
            ) || steps[k].to.len() > longest by {
                if k == 0 {
                    assert(steps[0] == moves[i]);
                } else {
                    assert(steps[k] == tail[k - 1]);
                    if is_goal(rest, tail[k - 1].to) {
                        lemma_goal_of_rest(moves, i, tail[k - 1].to);
                    }
                }
            }
        } else {
            let spare = spare_name(moves[0].from, longest);
            let rest = moves.remove(0);
            let middle = scheduled(rest, longest + 1);
            let aside = Move { from: moves[0].from, to: spare };
            let back = Move { from: spare, to: moves[0].to };
            lemma_scheduled_gives(rest, longest + 1);
            assert(steps == seq![aside] + middle + seq![back]);
            assert(spare.len() > longest);
            assert forall|k: int| 0 <= k < steps.len() implies is_goal(
                moves,
                (#[trigger] steps[k]).to,
            ) || steps[k].to.len() > longest by {
                if k == 0 {
                    assert(steps[0] == aside);
                } else if k <= middle.len() {
                    assert(steps[k] == middle[k - 1]);
                    if is_goal(rest, middle[k - 1].to) {
                        lemma_goal_of_rest(moves, 0, middle[k - 1].to);
                    }
                } else {
                    assert(steps[k] == back);
                    assert(moves[0].to == back.to);
                }
            }
        }
    }
}

/// A name that moves give once one of them is taken out, all of them give.
proof fn lemma_goal_of_rest(moves: Seq<Move>, i: int, name: Seq<char>)
    requires
        0 <= i < moves.len(),
        is_goal(moves.remove(i), name),
    ensures
        is_goal(moves, name),
{
    let rest = moves.remove(i);
    let j = choose|j: int| 0 <= j < rest.len() && (#[trigger] rest[j]).to == name;
    let k = if j < i {
        j
    } else {
        j + 1
    };
    assert(moves[k] == rest[j]);
}

/// Taking one move out of moves with nothing in their way, and carrying it
/// out or putting its folder aside under a name that nothing has or is
/// given, leaves moves with nothing in their way.
proof fn lemma_rest_unobstructed(dir: Directory, moves: Seq<Move>, i: int, to: Seq<char>)
    requires
        unobstructed(dir, moves),
        0 <= i < moves.len(),
        to == moves[i].to || !is_goal(moves, to),
    ensures
        unobstructed(moved(dir, Move { from: moves[i].from, to }), moves.remove(i)),
        to != moves[i].to ==> is_source(moves, moves[i].to) ==> is_source(
            moves.remove(i),
            moves[i].to,
        ),
        !is_goal(moves.remove(i), moves[i].to),
{
    let rest = moves.remove(i);
    let after = moved(dir, Move { from: moves[i].from, to });
    let back = |j: int|
        if j < i {
            j
        } else {
            j + 1
        };
    assert forall|j: int| 0 <= j < rest.len() implies #[trigger] rest[j] == moves[back(j)] by {}
    assert forall|j: int| 0 <= j < rest.len() implies (#[trigger] rest[j]).from != rest[j].to by {
        assert(rest[j] == moves[back(j)]);
    }
    assert forall|j: int, k: int| 0 <= j < k < rest.len() implies (#[trigger] rest[j]).to != (
    #[trigger] rest[k]).to by {
        assert(rest[j] == moves[back(j)] && rest[k] == moves[back(k)]);
    }
    assert forall|j: int|
        0 <= j < rest.len() && after.dom().contains((#[trigger] rest[j]).to) implies is_source(
        rest,
        rest[j].to,
    ) by {
        let name = rest[j].to;
        assert(rest[j] == moves[back(j)]);
        assert(moves[back(j)].to != moves[i].to) by {
            if back(j) < i {
                assert(moves[back(j)].to != moves[i].to);
            } else {
                assert(moves[i].to != moves[back(j)].to);
            }
        }
        assert(is_goal(moves, name));
        assert(name != to);
        assert(dir.dom().contains(name) && name != moves[i].from);
        let k = choose|k: int| 0 <= k < moves.len() && (#[trigger] moves[k]).from == name;
        let kk = if k < i {
            k
        } else {
            k - 1
        };
        assert(rest[kk] == moves[k]);
    }
    if is_goal(rest, moves[i].to) {
        let j = choose|j: int| 0 <= j < rest.len() && (#[trigger] rest[j]).to == moves[i].to;
        assert(rest[j] == moves[back(j)]);
        if back(j) < i {
            assert(moves[back(j)].to != moves[i].to);
        } else {
            assert(moves[i].to != moves[back(j)].to);
        }
    }
    if to != moves[i].to && is_source(moves, moves[i].to) {
        let k = choose|k: int| 0 <= k < moves.len() && (#[trigger] moves[k]).from == moves[i].to;
        assert(k != i);
        let kk = if k < i {
            k
        } else {
            k - 1
        };
        assert(rest[kk] == moves[k]);
    }
}

/// The steps of `scheduled` never rename a folder to a name that is in use,
/// for as long as the folders to rename are there: whatever the directory,
/// where nothing but folders to rename stands in the way and no name in
/// play is longer than `longest`. This holds also of moves that name a
/// folder twice or one that is not there.
pub proof fn lemma_scheduled_finds_free(dir: Directory, moves: Seq<Move>, longest: nat)
    requires
        unobstructed(dir, moves),
        bounded(dir, moves, longest),
    ensures
        finds_free(dir, scheduled(moves, longest)),
    decreases moves.len(),
{
    if moves.len() > 0 {
        lemma_next_free(moves, 0);
        let i = next_free(moves, 0);
        let steps = scheduled(moves, longest);
        if i < moves.len() {
            let m = moves[i];
            let rest = moves.remove(i);
            let tail = scheduled(rest, longest);
            assert(steps == seq![m] + tail);
            assert(steps[0] == m);
            assert(steps.skip(1) =~= tail);
            assert(!dir.dom().contains(m.to));
            if dir.dom().contains(m.from) {
                let after = moved(dir, m);
                lemma_rest_unobstructed(dir, moves, i, m.to);
                assert(bounded(after, rest, longest)) by {
                    assert forall|j: int| 0 <= j < rest.len() implies (
                    #[trigger] rest[j]).from.len() <= longest && rest[j].to.len() <= longest by {
                        let k = if j < i {
                            j
                        } else {
                            j + 1
                        };
                        assert(rest[j] == moves[k]);
                    }
                    assert forall|name: Seq<char>| #[trigger]
                        after.dom().contains(name) implies name.len() <= longest by {}
                }
                lemma_scheduled_finds_free(after, rest, longest);
            }
        } else {
            let m = moves[0];
            let spare = spare_name(m.from, longest);
            let aside = Move { from: m.from, to: spare };
            let back = Move { from: spare, to: m.to };
            let rest = moves.remove(0);
            let middle = scheduled(rest, longest + 1);
            assert(steps == seq![aside] + middle + seq![back]);
            assert(steps[0] == aside);
            assert(steps.skip(1) =~= middle + seq![back]);
            assert(spare.len() == longest + 1);
            assert(!dir.dom().contains(spare));
            assert(!is_goal(moves, spare)) by {
                if is_goal(moves, spare) {
                    let g = giver(moves, spare);
                    assert(moves[g].to.len() <= longest);
                }
            }
            if dir.dom().contains(m.from) {
                let after = moved(dir, aside);
                lemma_rest_unobstructed(dir, moves, 0, spare);
                assert(bounded(after, rest, longest + 1)) by {
                    assert forall|j: int| 0 <= j < rest.len() implies (
                    #[trigger] rest[j]).from.len() <= longest + 1 && rest[j].to.len() <= longest
                        + 1 by {
                        assert(rest[j] == moves[j + 1]);
                    }
                    assert forall|name: Seq<char>| #[trigger]
                        after.dom().contains(name) implies name.len() <= longest + 1 by {}
                }
                lemma_scheduled_finds_free(after, rest, longest + 1);
                lemma_finds_free_concat(after, middle, seq![back]);
                if runs(after, middle) {
                    // The name that the folder waits for has been left, and
                    // nothing has taken it.
                    assert(!is_free(moves, 0));
                    assert(is_source(moves, m.to));
                    assert(is_source(rest, m.to));
                    lemma_scheduled_takes(rest, longest + 1, m.to);
                    lemma_scheduled_gives(rest, longest + 1);
                    assert forall|k: int| 0 <= k < middle.len() implies (#[trigger] middle[k]).to
                        != m.to by {
                        assert(m.to.len() <= longest);
                    }
                    lemma_left_for_good(after, middle, m.to);
                    lemma_finds_free_one(outcome(after, middle), back);
                }
            }
        }
    }
}

/// Carried out step by step as `schedule_of` says, a plan never renames a
/// folder to a name that is in use, for as long as the folders to rename
/// are there: in every directory that holds no name besides those of
/// `entries` and in which nothing but folders to rename stands in the way.
pub proof fn lemma_schedule_finds_free(
    dir: Directory,
    plan: Seq<RenameOp>,
    entries: Seq<NameShape>,
)
    requires
        unobstructed(dir, moves_of(plan)),
        forall|name: Seq<char>| #[trigger]
            dir.dom().contains(name) ==> exists|i: int|
                0 <= i < entries.len() && (#[trigger] entries[i]).text() == name,
    ensures
        finds_free(dir, schedule_of(plan, entries)),
{
    let moves = moves_of(plan);
    let longest = longest_entry(entries, longest_move(moves));
    lemma_longest_entry(entries, longest_move(moves));
    lemma_longest_move(moves);
    assert forall|name: Seq<char>| #[trigger] dir.dom().contains(name) implies name.len()
        <= longest by {
        let i = choose|i: int| 0 <= i < entries.len() && (#[trigger] entries[i]).text() == name;
        assert(entries[i].text().len() <= longest);
    }
    lemma_scheduled_finds_free(dir, moves, longest);
}

/// Whether a folder that `pending` renames has the name `name`.
fn has_source(pending: &Vec<RenameStep>, name: &String) -> (found: bool)
    ensures
        found == is_source(steps_view(pending@), name@),
{
    let mut j: usize = 0;
    while j < pending.len()
        invariant
            j <= pending.len(),
            forall|k: int| 0 <= k < j ==> (#[trigger] steps_view(pending@)[k]).from != name@,
        decreases pending.len() - j,
    {
        if pending[j].from == *name {
            assert(steps_view(pending@)[j as int].from == name@);
            return true;
        }
        j = j + 1;
    }
    false
}

/// The first step of `pending` that gives a name which no folder still to
/// be renamed has; the length of `pending` where there is none.
fn first_free(pending: &Vec<RenameStep>) -> (i: usize)
    ensures
        i == next_free(steps_view(pending@), 0),
{
    let mut i: usize = 0;
    while i < pending.len()
        invariant
            i <= pending.len(),
            next_free(steps_view(pending@), 0) == next_free(steps_view(pending@), i as int),
        decreases pending.len() - i,
    {
        assert(steps_view(pending@)[i as int].to == pending[i as int].to@);
        if !has_source(pending, &pending[i].to) {
            return i;
        }
        i = i + 1;
    }
    i
}

/// `from` with `~` added until it has one character more than `longest`.
fn spare_string(from: &String, longest: u128) -> (spare: String)
    requires
        longest < u128::MAX,
    ensures
        spare@ == spare_name(from@, longest as nat),
{
    let len: u128 = from.as_str().unicode_len() as u128;
    let pad: u128 = if len <= longest {
        longest + 1 - len
    } else {
        1
    };
    let mut spare = from.clone();
    let mut added: u128 = 0;
    assert(spare@ =~= from@ + Seq::new(0, |i: int| '~'));
    while added < pad
        invariant
            added <= pad,
            spare@ == from@ + Seq::new(added as nat, |i: int| '~'),
        decreases pad - added,
    {
        spare.append("~");
        proof {
            reveal_strlit("~");
            assert(spare@ =~= from@ + Seq::new((added + 1) as nat, |i: int| '~'));
        }
        added = added + 1;
    }
    spare
}

/// Puts the renames `moves` in an order in which they can be carried out
/// one by one, with spare names where they form a cycle.
fn schedule_moves(moves: Vec<RenameStep>, longest: u128) -> (steps: Vec<RenameStep>)
    requires
        longest + moves.len() < u128::MAX,
    ensures
        steps_view(steps@) == scheduled(steps_view(moves@), longest as nat),
{
    let ghost goal = scheduled(steps_view(moves@), longest as nat);
    let mut pending = moves;
    let mut steps: Vec<RenameStep> = Vec::new();
    let mut finale: Vec<RenameStep> = Vec::new();
    let mut longest: u128 = longest;
    assert(goal =~= steps_view(steps@) + scheduled(steps_view(pending@), longest as nat)
        + steps_view(finale@).reverse());
    while pending.len() > 0
        invariant
            longest + pending.len() < u128::MAX,
            goal == steps_view(steps@) + scheduled(steps_view(pending@), longest as nat)
                + steps_view(finale@).reverse(),
        decreases pending.len(),
    {
        let ghost before = steps_view(pending@);
        let ghost done = steps_view(steps@);
        let ghost late = steps_view(finale@);
        let i: usize = first_free(&pending);
        if i < pending.len() {
            let m = pending.remove(i);
            proof {
                assert(steps_view(pending@) =~= before.remove(i as int));
                assert(steps_view(steps@.push(m)) =~= done.push(m@));
                assert(done + (seq![m@] + scheduled(before.remove(i as int), longest as nat))
                    + late.reverse() =~= done.push(m@) + scheduled(
                    before.remove(i as int),
                    longest as nat,
                ) + late.reverse());
            }
            steps.push(m);
        } else {
            let m = pending.remove(0);
            let spare = spare_string(&m.from, longest);
            let aside = RenameStep { from: m.from, to: spare.clone() };
            let back = RenameStep { from: spare, to: m.to };
            proof {
                let middle = scheduled(before.remove(0), (longest + 1) as nat);
                assert(steps_view(pending@) =~= before.remove(0));
                assert(steps_view(steps@.push(aside)) =~= done.push(aside@));
                assert(steps_view(finale@.push(back)) =~= late.push(back@));
                assert(late.push(back@).reverse() =~= seq![back@] + late.reverse());
                assert(done + (seq![aside@] + middle + seq![back@]) + late.reverse()
                    =~= done.push(aside@) + middle + late.push(back@).reverse());
            }
            steps.push(aside);
            finale.push(back);
            longest = longest + 1;
        }
    }
    assert(goal =~= steps_view(steps@) + steps_view(finale@).reverse());
    while finale.len() > 0
        invariant
            goal == steps_view(steps@) + steps_view(finale@).reverse(),
        decreases finale.len(),
    {
        let ghost done = steps_view(steps@);
        let ghost late = steps_view(finale@);
        let m = finale.pop().unwrap();
        proof {
            assert(late =~= steps_view(finale@).push(m@));
            assert(late.reverse() =~= seq![m@] + steps_view(finale@).reverse());
            assert(steps_view(steps@.push(m)) =~= done.push(m@));
            assert(done + late.reverse() =~= done.push(m@) + steps_view(finale@).reverse());
        }
        steps.push(m);
    }
    assert(steps_view(finale@).reverse() =~= Seq::<Move>::empty());
    assert(goal =~= steps_view(steps@));
    steps
}

/// Puts the renames of `plan` in an order in which they can be carried out
/// one by one in a directory that holds `entries`.
///
/// An instruction that leaves a name as it is asks for no step. A rename
/// goes first as soon as no folder still to be renamed has the name it
/// gives. Where the renames that are left wait for each other, the folder
/// of the first is put aside under a spare name, and gets its name once the
/// others are done. A spare name is the folder's name with `~` added until
/// it is longer than every name of `entries` and of `plan`.
pub fn schedule(plan: &Vec<FolderRenameInstruction>, entries: &FolderList) -> (steps: Vec<
    RenameStep,
>)
    ensures
        steps_view(steps@) == schedule_of(crate::entities::plan_view(plan@), entries@),
{
    let ghost ops = crate::entities::plan_view(plan@);
    let mut moves: Vec<RenameStep> = Vec::new();
    let mut longest: usize = 0;
    let mut i: usize = 0;
    assert(ops.take(0) =~= Seq::empty());
    assert(steps_view(moves@) =~= Seq::empty());
    while i < plan.len()
        invariant
            i <= plan.len(),
            ops == crate::entities::plan_view(plan@),
            moves.len() <= i,
            steps_view(moves@) == moves_of(ops.take(i as int)),
            longest == longest_move(moves_of(ops.take(i as int))),
        decreases plan.len() - i,
    {
        proof {
            assert(ops.take(i + 1).drop_last() =~= ops.take(i as int));
            assert(ops.take(i + 1).last() == plan[i as int]@);
        }
        let from = plan[i].from_name();
        let to = plan[i].to_name();
        if !(from == to) {
            let from_len: usize = from.as_str().unicode_len();
            let to_len: usize = to.as_str().unicode_len();
            if from_len > longest {
                longest = from_len;
            }
            if to_len > longest {
                longest = to_len;
            }
            let step = RenameStep { from, to };
            proof {
                let grown = steps_view(moves@).push(step@);
                assert(steps_view(moves@.push(step)) =~= grown);
                assert(grown.drop_last() =~= steps_view(moves@));
            }
            moves.push(step);
        }
        i = i + 1;
    }
    assert(ops.take(plan.len() as int) =~= ops);
    let mut k: usize = 0;
    assert(entries@.take(0) =~= Seq::empty());
    while k < entries.0.len()
        invariant
            k <= entries.0.len(),
            longest == longest_entry(entries@.take(k as int), longest_move(moves_of(ops))),
        decreases entries.0.len() - k,
    {
        proof {
            assert(entries@.take(k + 1).drop_last() =~= entries@.take(k as int));
            assert(entries@.take(k + 1).last() == entries.0[k as int]@);
        }
        let len: usize = entries.0[k].get_name().as_str().unicode_len();
        if len > longest {
            longest = len;
        }
        k = k + 1;
    }
    assert(entries@.take(entries.0.len() as int) =~= entries@);
    schedule_moves(moves, longest as u128)
}

} // verus!
