//! The two plans that renumber a directory: one closes the numbering, one
//! puts a folder at a rank.

use crate::digits;
use crate::entities;
use crate::entities::FolderList;
use crate::entities::FolderNameVariant;
use crate::entities::FolderNumber;
use crate::entities::FolderRenameInstruction;
use crate::entities::NameShape;
use crate::entities::NumberedFolderName;
use crate::entities::NumberedName;
use crate::entities::NumberingNumber;
use crate::entities::RenameOp;
use crate::ranking;
use vstd::prelude::*;

verus! {

/// The numbered names among `entries`, in the order of the list.
pub open spec fn numbered_of(entries: Seq<NameShape>) -> Seq<NumberedName>
    decreases entries.len(),
{
    if entries.len() == 0 {
        Seq::empty()
    } else {
        match entries.last() {
            NameShape::Numbered(n) => numbered_of(entries.drop_last()).push(n),
            NameShape::Normal(_) => numbered_of(entries.drop_last()),
        }
    }
}

/// The names of `names` other than `target`, in the order of the list.
pub open spec fn without(names: Seq<NumberedName>, target: NameShape) -> Seq<NumberedName>
    decreases names.len(),
{
    if names.len() == 0 {
        names
    } else if NameShape::Numbered(names.last()) == target {
        without(names.drop_last(), target)
    } else {
        without(names.drop_last(), target).push(names.last())
    }
}

/// The instruction that puts `entry` at `rank`, its number padded to
/// `width` characters, or to as many as the digits of `rank` need.
pub open spec fn placed(entry: NameShape, rank: nat, width: nat) -> RenameOp {
    RenameOp {
        target: entry,
        new_name: NumberedName {
            value: rank,
            width: if width >= digits::digit_count(rank) {
                width
            } else {
                digits::digit_count(rank)
            },
            remainder: entry.remainder(),
        },
    }
}

/// Whether an instruction gives its folder another name than it has.
pub open spec fn changes(op: RenameOp) -> bool {
    op.from_text() != op.to_text()
}

/// The width that numbers `0..count` are padded to: what the largest of
/// them needs.
pub open spec fn reorder_width(count: nat) -> nat {
    if count == 0 {
        0
    } else {
        digits::digit_count((count - 1) as nat)
    }
}

/// The plan that closes the numbering of `entries`: one instruction for
/// each numbered entry, by rank, renaming the entry at rank `i` to the
/// number `i`. Entries that keep their name are in it too; plain entries
/// are not.
pub open spec fn reorder_plan(entries: Seq<NameShape>) -> Seq<RenameOp> {
    let names = ranking::ranked(numbered_of(entries));
    Seq::new(
        names.len(),
        |i: int| placed(NameShape::Numbered(names[i]), i as nat, reorder_width(names.len())),
    )
}

/// The number that a folder numbered `value` is moved to for the time when
/// room is made at `rank`: one up from `rank` on.
pub open spec fn shifted(value: nat, rank: nat) -> nat {
    if value >= rank {
        value + 1
    } else {
        value
    }
}

/// How many of `names` have a number below `rank`.
pub open spec fn below(names: Seq<NumberedName>, rank: nat) -> nat
    decreases names.len(),
{
    if names.len() == 0 {
        0
    } else if names.last().value < rank {
        below(names.drop_last(), rank) + 1
    } else {
        below(names.drop_last(), rank)
    }
}

/// The largest number in use once room is made at `rank`: `rank` itself,
/// or the largest shifted number of `names`.
pub open spec fn highest(names: Seq<NumberedName>, rank: nat) -> nat
    decreases names.len(),
{
    if names.len() == 0 {
        rank
    } else if shifted(names.last().value, rank) > highest(names.drop_last(), rank) {
        shifted(names.last().value, rank)
    } else {
        highest(names.drop_last(), rank)
    }
}

/// The numbered entries other than `target`, by rank.
pub open spec fn others_ranked(entries: Seq<NameShape>, target: NameShape) -> Seq<NumberedName> {
    ranking::ranked(without(numbered_of(entries), target))
}

/// The folders that get a number when `target` is put at `rank`, in the
/// order of their new numbers: the other numbered entries by rank, with
/// `target` behind those whose number is below `rank`.
pub open spec fn candidates(entries: Seq<NameShape>, target: NameShape, rank: nat) -> Seq<
    NameShape,
> {
    let others = others_ranked(entries, target);
    others.map_values(|n: NumberedName| NameShape::Numbered(n)).insert(
        below(others, rank) as int,
        target,
    )
}

/// The instructions that put `cands[i]` at rank `i`, for those folders
/// whose name changes and for the one at `at`, which is always kept.
pub open spec fn kept(cands: Seq<NameShape>, at: int, width: nat) -> Seq<RenameOp>
    decreases cands.len(),
{
    if cands.len() == 0 {
        Seq::empty()
    } else {
        let i = cands.len() - 1;
        let op = placed(cands[i], i as nat, width);
        if i == at || changes(op) {
            kept(cands.drop_last(), at, width).push(op)
        } else {
            kept(cands.drop_last(), at, width)
        }
    }
}

/// The plan that puts `target` at `rank`. The other numbered entries from
/// `rank` on move one up, then all are numbered `0, 1, 2, ..` in that
/// order, which closes every gap. All numbers are padded to the width of the
/// largest number in use before the gaps are closed. Entries whose name
/// stays are left out, except `target`.
pub open spec fn assign_rank_plan(entries: Seq<NameShape>, target: NameShape, rank: nat) -> Seq<
    RenameOp,
> {
    let others = others_ranked(entries, target);
    kept(
        candidates(entries, target, rank),
        below(others, rank) as int,
        digits::digit_count(highest(others, rank)),
    )
}

/// The names that a plan gives, in its order.
pub open spec fn new_names(plan: Seq<RenameOp>) -> Seq<NumberedName> {
    plan.map_values(|op: RenameOp| op.new_name)
}

/// Whether a numbered folder name is the entry `target`.
fn is_entry(name: &NumberedFolderName, target: &FolderNameVariant) -> (r: bool)
    ensures
        r == (NameShape::Numbered(name@) == target@),
{
    match target {
        FolderNameVariant::Normal(_) => false,
        FolderNameVariant::Numbered(other) => name.same_as(other),
    }
}

impl NumberingNumber {
    /// The rank `rank`.
    pub fn new(rank: usize) -> (number: Self)
        ensures
            number.0 == rank,
    {
        NumberingNumber(rank)
    }
}

impl FolderList {
    /// The list of `names`.
    pub fn new(names: Vec<FolderNameVariant>) -> (list: Self)
        ensures
            list.0 == names,
    {
        FolderList(names)
    }

    /// The numbered folders of the list, in its order.
    pub fn filter_numbered(&self) -> (names: Vec<NumberedFolderName>)
        ensures
            entities::names_view(names@) == numbered_of(self@),
    {
        let mut names: Vec<NumberedFolderName> = Vec::new();
        let mut i: usize = 0;
        assert(self@.take(0) =~= Seq::empty());
        assert(entities::names_view(names@) =~= Seq::empty());
        while i < self.0.len()
            invariant
                i <= self.0.len(),
                entities::names_view(names@) == numbered_of(self@.take(i as int)),
            decreases self.0.len() - i,
        {
            proof {
                assert(self@.take(i + 1).drop_last() =~= self@.take(i as int));
                assert(self@.take(i + 1).last() == self.0[i as int]@);
            }
            match &self.0[i] {
                FolderNameVariant::Numbered(name) => {
                    let copy = name.clone();
                    assert(entities::names_view(names@.push(copy)) =~= entities::names_view(
                        names@,
                    ).push(copy@));
                    names.push(copy);
                },
                FolderNameVariant::Normal(_) => {},
            }
            i = i + 1;
        }
        assert(self@.take(self.0.len() as int) =~= self@);
        names
    }

    /// The numbered folders of the list other than `target`, in its order.
    fn others(&self, target: &FolderNameVariant) -> (names: Vec<NumberedFolderName>)
        ensures
            entities::names_view(names@) == without(numbered_of(self@), target@),
            names.len() <= self.0.len(),
    {
        let all = self.filter_numbered();
        let mut names: Vec<NumberedFolderName> = Vec::new();
        let mut i: usize = 0;
        assert(entities::names_view(all@).take(0) =~= Seq::empty());
        assert(entities::names_view(names@) =~= Seq::empty());
        proof {
            lemma_numbered_of_len(self@);
        }
        while i < all.len()
            invariant
                i <= all.len(),
                names.len() <= i,
                entities::names_view(names@) == without(
                    entities::names_view(all@).take(i as int),
                    target@,
                ),
            decreases all.len() - i,
        {
            proof {
                let views = entities::names_view(all@);
                assert(views.take(i + 1).drop_last() =~= views.take(i as int));
                assert(views.take(i + 1).last() == all[i as int]@);
            }
            if !is_entry(&all[i], target) {
                let copy = all[i].clone();
                assert(entities::names_view(names@.push(copy)) =~= entities::names_view(
                    names@,
                ).push(copy@));
                names.push(copy);
            }
            i = i + 1;
        }
        assert(entities::names_view(all@).take(all.len() as int) =~= entities::names_view(all@));
        names
    }

    /// Plans the renames that close the numbering of the list.
    ///
    /// Plain folders are left alone. The numbered ones are ranked by number,
    /// and by raw name where numbers are equal. The folder at rank `i` is
    /// renamed to the number `i`, all numbers padded to the width of the
    /// largest. There is one instruction for each numbered folder, by rank,
    /// also for a folder that keeps its name.
    pub fn order(&self) -> (plan: Vec<FolderRenameInstruction>)
        ensures
            entities::plan_view(plan@) == reorder_plan(self@),
    {
        let names = ranking::rank_names(&self.filter_numbered());
        let count: usize = names.len();
        let mut plan: Vec<FolderRenameInstruction> = Vec::new();
        if count == 0 {
            assert(entities::plan_view(plan@) =~= reorder_plan(self@));
            return plan;
        }
        let width: usize = digits::count_digits((count - 1) as u128);
        let mut i: usize = 0;
        while i < count
            invariant
                i <= count == names.len(),
                entities::names_view(names@) == ranking::ranked(numbered_of(self@)),
                width == reorder_width(count as nat),
                plan.len() == i,
                forall|j: int|
                    0 <= j < i ==> (#[trigger] plan[j])@ == placed(
                        NameShape::Numbered(names[j]@),
                        j as nat,
                        width as nat,
                    ),
            decreases count - i,
        {
            let op = names[i].numbering(FolderNumber::new(i, width));
            plan.push(op);
            i = i + 1;
        }
        assert(entities::plan_view(plan@) =~= reorder_plan(self@)) by {
            assert forall|j: int| 0 <= j < count implies entities::plan_view(plan@)[j]
                == reorder_plan(self@)[j] by {
                assert(entities::names_view(names@)[j] == names[j]@);
            }
        }
        plan
    }

    /// Plans the renames that put the folder `name` at rank `number`.
    ///
    /// The numbered folders other than `name` are ranked by number, and by
    /// raw name where numbers are equal. Those numbered `number` or more make
    /// room by moving one up, `name` takes the free place, and then all are
    /// renamed to `0, 1, 2, ..` in that order, which also closes the gaps
    /// that the numbering had before. All numbers are padded to the width of
    /// the largest number in use before the gaps are closed. The plan holds
    /// the instruction for `name` and those that change a name, in the order
    /// of the new numbers.
    pub fn number(&self, name: FolderNameVariant, number: NumberingNumber) -> (plan: Vec<
        FolderRenameInstruction,
    >)
        requires
            self@.len() < usize::MAX,
        ensures
            entities::plan_view(plan@) == assign_rank_plan(self@, name@, number.0 as nat),
    {
        let rank: usize = number.0;
        let others = ranking::rank_names(&self.others(&name));
        proof {
            ranking::lemma_ranked_is_ranked(without(numbered_of(self@), name@));
        }
        let count: usize = others.len();
        let mut at: usize = 0;
        let mut top: u128 = rank as u128;
        let mut j: usize = 0;
        assert(entities::names_view(others@).take(0) =~= Seq::empty());
        while j < count
            invariant
                j <= count == others.len(),
                at <= j,
                at == below(entities::names_view(others@).take(j as int), rank as nat),
                top == highest(entities::names_view(others@).take(j as int), rank as nat),
                top <= usize::MAX + 1,
            decreases count - j,
        {
            proof {
                let views = entities::names_view(others@);
                assert(views.take(j + 1).drop_last() =~= views.take(j as int));
                assert(views.take(j + 1).last() == others[j as int]@);
            }
            let value: usize = others[j].number().get_value();
            if value < rank {
                at = at + 1;
            }
            let moved: u128 = if value >= rank {
                value as u128 + 1
            } else {
                value as u128
            };
            if moved > top {
                top = moved;
            }
            j = j + 1;
        }
        assert(entities::names_view(others@).take(count as int) =~= entities::names_view(others@));
        let width: usize = digits::count_digits(top);
        let ghost cands = candidates(self@, name@, rank as nat);
        let mut plan: Vec<FolderRenameInstruction> = Vec::new();
        let mut i: usize = 0;
        assert(cands.take(0) =~= Seq::empty());
        assert(entities::plan_view(plan@) =~= Seq::empty());
        while i <= count
            invariant
                i <= count + 1,
                count == others.len(),
                count < usize::MAX,
                at <= count,
                entities::names_view(others@) == others_ranked(self@, name@),
                at == below(others_ranked(self@, name@), rank as nat),
                cands == candidates(self@, name@, rank as nat),
                entities::plan_view(plan@) == kept(cands.take(i as int), at as int, width as nat),
            decreases count + 1 - i,
        {
            proof {
                assert(cands.take(i + 1).drop_last() =~= cands.take(i as int));
                assert(cands.take(i + 1)[i as int] == cands[i as int]);
                if i < at {
                    assert(cands[i as int] == NameShape::Numbered(
                        entities::names_view(others@)[i as int],
                    ));
                } else if i > at {
                    assert(cands[i as int] == NameShape::Numbered(
                        entities::names_view(others@)[i - 1],
                    ));
                }
            }
            let place = FolderNumber::new(i, width);
            let op = if i < at {
                others[i].numbering(place)
            } else if i == at {
                name.numbering(place)
            } else {
                others[i - 1].numbering(place)
            };
            assert(op@ == placed(cands[i as int], i as nat, width as nat));
            let stays: bool = op.from_name() == op.to_name();
            if i == at || !stays {
                assert(entities::plan_view(plan@.push(op)) =~= entities::plan_view(plan@).push(
                    op@,
                ));
                plan.push(op);
            }
            i = i + 1;
        }
        assert(cands.take(count + 1) =~= cands);
        plan
    }
}

/// A list has no more numbered entries than entries.
pub proof fn lemma_numbered_of_len(entries: Seq<NameShape>)
    ensures
        numbered_of(entries).len() <= entries.len(),
    decreases entries.len(),
{
    if entries.len() > 0 {
        lemma_numbered_of_len(entries.drop_last());
    }
}

/// What a plan to close the numbering looks like: it has one instruction
/// for each numbered entry; the one at `i` gives the number `i`, padded to
/// the width that the largest number needs, which is room enough.
pub proof fn lemma_reorder_plan(entries: Seq<NameShape>)
    ensures
        reorder_plan(entries).len() == numbered_of(entries).len(),
        forall|i: int|
            0 <= i < reorder_plan(entries).len() ==> {
                let op = #[trigger] reorder_plan(entries)[i];
                &&& op.target == NameShape::Numbered(ranking::ranked(numbered_of(entries))[i])
                &&& op.new_name.value == i
                &&& op.new_name.width == reorder_width(reorder_plan(entries).len())
                &&& op.new_name.remainder == ranking::ranked(numbered_of(entries))[i].remainder
                &&& op.new_name.wf()
            },
{
    ranking::lemma_ranked_is_ranked(numbered_of(entries));
    let count = numbered_of(entries).len();
    assert(reorder_plan(entries).len() == count);
    assert forall|i: int| 0 <= i < count implies {
        let op = #[trigger] reorder_plan(entries)[i];
        &&& op.target == NameShape::Numbered(ranking::ranked(numbered_of(entries))[i])
        &&& op.new_name.value == i
        &&& op.new_name.width == reorder_width(count)
        &&& op.new_name.remainder == ranking::ranked(numbered_of(entries))[i].remainder
        &&& op.new_name.wf()
    } by {
        digits::lemma_digit_count_monotonic(i as nat, (count - 1) as nat);
    }
}

/// Closing a numbering that is closed changes nothing. Where the numbered
/// entries of `again` are the names that the plan for `entries` gives, in
/// whatever order, the plan for `again` leaves every name as it is.
pub proof fn lemma_reorder_twice(entries: Seq<NameShape>, again: Seq<NameShape>)
    requires
        numbered_of(again).to_multiset() == new_names(reorder_plan(entries)).to_multiset(),
    ensures
        reorder_plan(again).len() == reorder_plan(entries).len(),
        forall|i: int|
            0 <= i < reorder_plan(again).len() ==> !changes(#[trigger] reorder_plan(again)[i]),
{
    broadcast use vstd::seq_lib::group_to_multiset_ensures;

    let first = reorder_plan(entries);
    let given = new_names(first);
    let second = reorder_plan(again);
    let found = ranking::ranked(numbered_of(again));
    lemma_reorder_plan(entries);
    lemma_reorder_plan(again);
    ranking::lemma_ranked_is_ranked(numbered_of(again));
    ranking::lemma_ranked_permutes(numbered_of(again));
    assert(given.len() == first.len());
    assert(found.len() == given.len()) by {
        assert(found.to_multiset().len() == found.len());
        assert(given.to_multiset().len() == given.len());
    }
    assert(ranking::is_ranked(given)) by {
        assert forall|i: int, j: int| 0 <= i < j < given.len() implies !ranking::precedes(
            given[j],
            given[i],
        ) by {
            assert(given[i] == first[i].new_name && given[j] == first[j].new_name);
        }
    }
    assert forall|i: int| 0 <= i < given.len() implies (#[trigger] given[i]).wf() by {
        assert(given[i] == first[i].new_name);
    }
    ranking::lemma_ranked_unique(given, found);
    assert forall|i: int| 0 <= i < second.len() implies !changes(#[trigger] second[i]) by {
        assert(found[i] == given[i]);
        assert(given[i] == first[i].new_name);
        assert(second[i].new_name == found[i]);
    }
}

/// No more names are below a rank than there are names.
pub proof fn lemma_below_bound(names: Seq<NumberedName>, rank: nat)
    ensures
        below(names, rank) <= names.len(),
    decreases names.len(),
{
    if names.len() > 0 {
        lemma_below_bound(names.drop_last(), rank);
    }
}

/// Among ranked names, those numbered below `rank` come first: `below`
/// is where the names numbered `rank` or more begin. So a folder put there
/// stands where its rank asks, behind every smaller number and in front of
/// every number that makes room for it.
pub proof fn lemma_below_splits(names: Seq<NumberedName>, rank: nat)
    requires
        ranking::is_ranked(names),
    ensures
        below(names, rank) <= names.len(),
        forall|i: int| 0 <= i < below(names, rank) ==> (#[trigger] names[i]).value < rank,
        forall|i: int|
            below(names, rank) <= i < names.len() ==> (#[trigger] names[i]).value >= rank,
    decreases names.len(),
{
    if names.len() > 0 {
        let rest = names.drop_last();
        assert(ranking::is_ranked(rest)) by {
            assert forall|x: int, y: int| 0 <= x < y < rest.len() implies !ranking::precedes(
                rest[y],
                rest[x],
            ) by {
                assert(rest[y] == names[y] && rest[x] == names[x]);
            }
        }
        lemma_below_splits(rest, rank);
        assert forall|i: int| 0 <= i < rest.len() implies (#[trigger] names[i]).value
            <= names.last().value by {
            assert(!ranking::precedes(names[names.len() - 1], names[i]));
        }
        if names.last().value < rank {
            assert(below(rest, rank) == rest.len()) by {
                if below(rest, rank) < rest.len() {
                    assert(rest[below(rest, rank) as int].value >= rank);
                    assert(rest[below(rest, rank) as int] == names[below(rest, rank) as int]);
                }
            }
        }
        assert forall|i: int| 0 <= i < below(names, rank) implies (#[trigger] names[i]).value
            < rank by {
            if i < rest.len() {
                assert(rest[i] == names[i]);
            }
        }
        assert forall|i: int| below(names, rank) <= i < names.len() implies (
        #[trigger] names[i]).value >= rank by {
            if i < rest.len() {
                assert(rest[i] == names[i]);
            }
        }
    }
}

} // verus!
