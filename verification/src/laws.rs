//! What carrying out a plan does to a directory: the steps that the
//! schedule gives for the plans of the planner run without ever finding a
//! name in use, and leave every folder under the name planned for it.

use crate::entities;
use crate::entities::NameShape;
use crate::entities::NumberedName;
use crate::entities::RenameOp;
use crate::planner;
use crate::schedule;
use crate::schedule::Directory;
use crate::schedule::Move;
use crate::usecase;
use crate::usecase::Event;
use crate::ranking;
use vstd::prelude::*;

verus! {

/// Whether `entries` are what listing the directory `dir` gives: every
/// name in use once, each with its shape, and no more of them than can be
/// counted.
pub open spec fn faithful(entries: Seq<NameShape>, dir: Directory) -> bool {
    &&& entries.len() <= usize::MAX
    &&& forall|i: int|
        0 <= i < entries.len() ==> #[trigger] entries[i] == entities::parse_name(entries[i].text())
    &&& forall|i: int, j: int|
        0 <= i < j < entries.len() ==> (#[trigger] entries[i]).text() != (
        #[trigger] entries[j]).text()
    &&& forall|i: int| 0 <= i < entries.len() ==> dir.dom().contains((#[trigger] entries[i]).text())
    &&& forall|name: Seq<char>| #[trigger]
        dir.dom().contains(name) ==> exists|i: int|
            0 <= i < entries.len() && (#[trigger] entries[i]).text() == name
}

/// The rename that an instruction asks for.
pub open spec fn move_of(op: RenameOp) -> Move {
    Move { from: op.from_text(), to: op.to_text() }
}

/// The instruction of `plan` that the move at `k` of `moves_of(plan)` comes
/// from.
pub open spec fn origin(plan: Seq<RenameOp>, k: int) -> int
    decreases plan.len(),
{
    if plan.len() == 0 {
        0
    } else if planner::changes(plan.last()) && k == schedule::moves_of(plan.drop_last()).len() {
        plan.len() - 1
    } else {
        origin(plan.drop_last(), k)
    }
}

/// The moves of a plan are its instructions that change a name, in the
/// order of the plan.
pub proof fn lemma_origin(plan: Seq<RenameOp>)
    ensures
        forall|k: int|
            0 <= k < schedule::moves_of(plan).len() ==> {
                &&& 0 <= #[trigger] origin(plan, k) < plan.len()
                &&& planner::changes(plan[origin(plan, k)])
                &&& schedule::moves_of(plan)[k] == move_of(plan[origin(plan, k)])
            },
        forall|k: int, l: int|
            0 <= k < l < schedule::moves_of(plan).len() ==> #[trigger] origin(plan, k)
                < #[trigger] origin(plan, l),
        forall|i: int|
            0 <= i < plan.len() && planner::changes(#[trigger] plan[i]) ==> exists|k: int|
                0 <= k < schedule::moves_of(plan).len() && #[trigger] origin(plan, k) == i,
    decreases plan.len(),
{
    if plan.len() > 0 {
        let rest = plan.drop_last();
        lemma_origin(rest);
        let moves = schedule::moves_of(plan);
        let fewer = schedule::moves_of(rest);
        assert forall|k: int| 0 <= k < moves.len() implies {
            &&& 0 <= #[trigger] origin(plan, k) < plan.len()
            &&& planner::changes(plan[origin(plan, k)])
            &&& moves[k] == move_of(plan[origin(plan, k)])
        } by {
            if k < fewer.len() {
                assert(origin(plan, k) == origin(rest, k));
                assert(rest[origin(rest, k)] == plan[origin(rest, k)]);
            }
        }
        assert forall|k: int, l: int| 0 <= k < l < moves.len() implies #[trigger] origin(plan, k)
            < #[trigger] origin(plan, l) by {
            assert(origin(plan, k) == origin(rest, k));
            if l < fewer.len() {
                assert(origin(plan, l) == origin(rest, l));
            }
        }
        assert forall|i: int|
            0 <= i < plan.len() && planner::changes(#[trigger] plan[i]) implies exists|k: int|
            0 <= k < moves.len() && #[trigger] origin(plan, k) == i by {
            if i < plan.len() - 1 {
                assert(rest[i] == plan[i]);
                let k = choose|k: int| 0 <= k < fewer.len() && #[trigger] origin(rest, k) == i;
                assert(origin(plan, k) == i);
            } else {
                assert(origin(plan, fewer.len() as int) == i);
            }
        }
    }
}

/// Whether `plan` fits the directory `dir`: no two instructions rename the
/// same folder or give the same name, every folder to rename is there, and
/// a new name that is in use belongs to a folder that another instruction
/// renames.
pub open spec fn well_planned(dir: Directory, plan: Seq<RenameOp>) -> bool {
    &&& forall|i: int, j: int|
        0 <= i < j < plan.len() ==> (#[trigger] plan[i]).from_text() != (
        #[trigger] plan[j]).from_text()
    &&& forall|i: int, j: int|
        0 <= i < j < plan.len() ==> (#[trigger] plan[i]).to_text() != (
        #[trigger] plan[j]).to_text()
    &&& forall|i: int| 0 <= i < plan.len() ==> dir.dom().contains((#[trigger] plan[i]).from_text())
    &&& forall|i: int|
        0 <= i < plan.len() && planner::changes(#[trigger] plan[i]) && dir.dom().contains(
            plan[i].to_text(),
        ) ==> exists|j: int|
            0 <= j < plan.len() && planner::changes(#[trigger] plan[j]) && plan[j].from_text()
                == plan[i].to_text()
}

/// The renames of a plan that fits a directory can be asked of it.
pub proof fn lemma_moves_applicable(dir: Directory, plan: Seq<RenameOp>)
    requires
        well_planned(dir, plan),
    ensures
        schedule::applicable(dir, schedule::moves_of(plan)),
{
    let moves = schedule::moves_of(plan);
    lemma_origin(plan);
    assert forall|k: int| 0 <= k < moves.len() implies (#[trigger] moves[k]).from
        != moves[k].to by {
        assert(moves[k] == move_of(plan[origin(plan, k)]));
    }
    assert forall|k: int, l: int| 0 <= k < l < moves.len() implies (#[trigger] moves[k]).from != (
    #[trigger] moves[l]).from by {
        assert(origin(plan, k) < origin(plan, l));
        assert(moves[k] == move_of(plan[origin(plan, k)]));
        assert(moves[l] == move_of(plan[origin(plan, l)]));
    }
    assert forall|k: int, l: int| 0 <= k < l < moves.len() implies (#[trigger] moves[k]).to != (
    #[trigger] moves[l]).to by {
        assert(origin(plan, k) < origin(plan, l));
        assert(moves[k] == move_of(plan[origin(plan, k)]));
        assert(moves[l] == move_of(plan[origin(plan, l)]));
    }
    assert forall|k: int| 0 <= k < moves.len() implies dir.dom().contains(
        (#[trigger] moves[k]).from,
    ) by {
        assert(moves[k] == move_of(plan[origin(plan, k)]));
    }
    assert forall|k: int|
        0 <= k < moves.len() && dir.dom().contains(
            (#[trigger] moves[k]).to,
        ) implies schedule::is_source(moves, moves[k].to) by {
        let i = origin(plan, k);
        assert(moves[k] == move_of(plan[i]));
        let j = choose|j: int|
            0 <= j < plan.len() && planner::changes(#[trigger] plan[j]) && plan[j].from_text()
                == plan[i].to_text();
        let l = choose|l: int| 0 <= l < moves.len() && #[trigger] origin(plan, l) == j;
        assert(moves[l] == move_of(plan[j]));
        assert(moves[l].from == moves[k].to);
    }
}

/// The numbered entries of a list are entries of the list, all of them, and
/// none twice where no entry is in the list twice.
pub proof fn lemma_numbered_of(entries: Seq<NameShape>)
    ensures
        forall|j: int|
            0 <= j < planner::numbered_of(entries).len() ==> entries.contains(
                NameShape::Numbered(#[trigger] planner::numbered_of(entries)[j]),
            ),
        forall|k: int|
            0 <= k < entries.len() ==> (#[trigger] entries[k] matches NameShape::Numbered(n)
                ==> planner::numbered_of(entries).contains(n)),
        entries.no_duplicates() ==> planner::numbered_of(entries).no_duplicates(),
    decreases entries.len(),
{
    if entries.len() > 0 {
        let rest = entries.drop_last();
        lemma_numbered_of(rest);
        let all = planner::numbered_of(entries);
        let fewer = planner::numbered_of(rest);
        assert forall|j: int| 0 <= j < all.len() implies entries.contains(
            NameShape::Numbered(#[trigger] all[j]),
        ) by {
            if j < fewer.len() {
                assert(all[j] == fewer[j]);
                let k = choose|k: int|
                    0 <= k < rest.len() && rest[k] == NameShape::Numbered(fewer[j]);
                assert(entries[k] == rest[k]);
            } else {
                assert(entries[entries.len() - 1] == NameShape::Numbered(all[j]));
            }
        }
        assert forall|k: int| 0 <= k < entries.len() implies (
        #[trigger] entries[k] matches NameShape::Numbered(n) ==> all.contains(n)) by {
            if let NameShape::Numbered(n) = entries[k] {
                if k < entries.len() - 1 {
                    assert(rest[k] == entries[k]);
                    let j = choose|j: int| 0 <= j < fewer.len() && fewer[j] == n;
                    assert(all[j] == n);
                } else {
                    assert(all[all.len() - 1] == n);
                }
            }
        }
        if entries.no_duplicates() {
            assert(rest.no_duplicates()) by {
                assert forall|i: int, j: int|
                    0 <= i < rest.len() && 0 <= j < rest.len() && i != j implies rest[i]
                    != rest[j] by {
                    assert(rest[i] == entries[i] && rest[j] == entries[j]);
                }
            }
            assert forall|i: int, j: int|
                0 <= i < all.len() && 0 <= j < all.len() && i != j implies all[i] != all[j] by {
                if i < fewer.len() && j < fewer.len() {
                    assert(all[i] == fewer[i] && all[j] == fewer[j]);
                } else {
                    let low = if i < j {
                        i
                    } else {
                        j
                    };
                    assert(all[low] == fewer[low]);
                    let k = choose|k: int|
                        0 <= k < rest.len() && rest[k] == NameShape::Numbered(fewer[low]);
                    assert(entries[k] == rest[k]);
                    assert(entries[k] != entries[entries.len() - 1]);
                }
            }
        }
    }
}

/// Ranking keeps the names that there are, and puts none in twice where
/// none was in twice.
pub proof fn lemma_ranked_members(names: Seq<NumberedName>)
    ensures
        forall|n: NumberedName|
            #![trigger ranking::ranked(names).contains(n)]
            #![trigger names.contains(n)]
            ranking::ranked(names).contains(n) <==> names.contains(n),
        names.no_duplicates() ==> ranking::ranked(names).no_duplicates(),
{
    broadcast use vstd::seq_lib::group_to_multiset_ensures;

    ranking::lemma_ranked_permutes(names);
    let ranked = ranking::ranked(names);
    assert forall|n: NumberedName|
        #![trigger ranked.contains(n)]
        #![trigger names.contains(n)]
        ranked.contains(n) <==> names.contains(n) by {
        assert(ranked.to_multiset().count(n) == names.to_multiset().count(n));
    }
    if names.no_duplicates() {
        names.lemma_multiset_has_no_duplicates();
        ranked.lemma_multiset_has_no_duplicates_conv();
    }
}

/// Entries with different raw names are different entries.
pub proof fn lemma_faithful_no_duplicates(entries: Seq<NameShape>, dir: Directory)
    requires
        faithful(entries, dir),
    ensures
        entries.no_duplicates(),
{
    assert forall|i: int, j: int|
        0 <= i < entries.len() && 0 <= j < entries.len() && i != j implies entries[i]
        != entries[j] by {
        if i < j {
            assert(entries[i].text() != entries[j].text());
        } else {
            assert(entries[j].text() != entries[i].text());
        }
    }
}

/// The plan that closes the numbering fits the directory that the entries
/// were listed from.
pub proof fn lemma_reorder_well_planned(entries: Seq<NameShape>, dir: Directory)
    requires
        faithful(entries, dir),
    ensures
        well_planned(dir, planner::reorder_plan(entries)),
{
    let plan = planner::reorder_plan(entries);
    let names = planner::numbered_of(entries);
    let ranked = ranking::ranked(names);
    planner::lemma_reorder_plan(entries);
    planner::lemma_numbered_of_len(entries);
    lemma_faithful_no_duplicates(entries, dir);
    lemma_numbered_of(entries);
    lemma_ranked_members(names);
    // Every ranked name is an entry, and so has the shape of its raw name.
    assert forall|i: int| 0 <= i < plan.len() implies {
        &&& entries.contains(#[trigger] plan[i].target)
        &&& plan[i].target == NameShape::Numbered(ranked[i])
        &&& entities::parse_name(ranked[i].text()) == NameShape::Numbered(ranked[i])
    } by {
        assert(ranked.contains(ranked[i]));
        assert(names.contains(ranked[i]));
        let j = choose|j: int| 0 <= j < names.len() && names[j] == ranked[i];
        assert(entries.contains(NameShape::Numbered(names[j])));
        let k = choose|k: int|
            0 <= k < entries.len() && entries[k] == NameShape::Numbered(ranked[i]);
        assert(entries[k] == entities::parse_name(entries[k].text()));
    }
    assert forall|i: int, j: int| 0 <= i < j < plan.len() implies (#[trigger] plan[i]).from_text()
        != (#[trigger] plan[j]).from_text() by {
        assert(entries.contains(plan[i].target) && entries.contains(plan[j].target));
        assert(ranked[i] != ranked[j]);
    }
    assert forall|i: int, j: int| 0 <= i < j < plan.len() implies (#[trigger] plan[i]).to_text()
        != (#[trigger] plan[j]).to_text() by {
        if plan[i].to_text() == plan[j].to_text() {
            ranking::lemma_text_value(plan[i].new_name, plan[j].new_name);
        }
    }
    assert forall|i: int| 0 <= i < plan.len() implies dir.dom().contains(
        (#[trigger] plan[i]).from_text(),
    ) by {
        assert(entries.contains(plan[i].target));
        let k = choose|k: int| 0 <= k < entries.len() && entries[k] == plan[i].target;
        assert(dir.dom().contains(entries[k].text()));
    }
    assert forall|i: int|
        0 <= i < plan.len() && planner::changes(#[trigger] plan[i]) && dir.dom().contains(
            plan[i].to_text(),
        ) implies exists|j: int|
        0 <= j < plan.len() && planner::changes(#[trigger] plan[j]) && plan[j].from_text()
            == plan[i].to_text() by {
        let given = plan[i].new_name;
        let e = choose|e: int|
            0 <= e < entries.len() && (#[trigger] entries[e]).text() == given.text();
        assert(entries[e] == entities::parse_name(entries[e].text()));
        entities::lemma_parse_text(given);
        assert(entries[e] == NameShape::Numbered(given));
        assert(names.contains(given));
        assert(ranked.contains(given));
        let j = choose|j: int| 0 <= j < ranked.len() && ranked[j] == given;
        assert(plan[j].target == NameShape::Numbered(ranked[j]));
        assert(plan[j].from_text() == plan[i].to_text());
        if i < j {
            assert(plan[i].to_text() != plan[j].to_text());
        } else if j < i {
            assert(plan[j].to_text() != plan[i].to_text());
        }
        assert(planner::changes(plan[j]));
    }
}

/// In the directory that a fitting plan asks for, each folder that the plan
/// names has the name planned for it, and every folder whose name is
/// neither taken nor given by the plan has the name it had.
pub proof fn lemma_settled_plan(dir: Directory, plan: Seq<RenameOp>)
    requires
        well_planned(dir, plan),
    ensures
        forall|i: int|
            0 <= i < plan.len() ==> {
                let op = #[trigger] plan[i];
                let after = schedule::settled(dir, schedule::moves_of(plan));
                after.dom().contains(op.to_text()) && after[op.to_text()] == dir[op.from_text()]
            },
        forall|name: Seq<char>|
            #![trigger dir.dom().contains(name)]
            dir.dom().contains(name) && (forall|i: int|
                0 <= i < plan.len() ==> (#[trigger] plan[i]).from_text() != name
                    && plan[i].to_text() != name) ==> {
                let after = schedule::settled(dir, schedule::moves_of(plan));
                after.dom().contains(name) && after[name] == dir[name]
            },
{
    let moves = schedule::moves_of(plan);
    let after = schedule::settled(dir, moves);
    lemma_origin(plan);
    lemma_moves_applicable(dir, plan);
    assert forall|i: int| 0 <= i < plan.len() implies after.dom().contains(
        (#[trigger] plan[i]).to_text(),
    ) && after[plan[i].to_text()] == dir[plan[i].from_text()] by {
        let name = plan[i].to_text();
        if planner::changes(plan[i]) {
            let k = choose|k: int| 0 <= k < moves.len() && #[trigger] origin(plan, k) == i;
            assert(moves[k] == move_of(plan[i]));
            let g = schedule::giver(moves, moves[k].to);
            assert(0 <= g < moves.len() && moves[g].to == moves[k].to);
            if g < k {
                assert(moves[g].to != moves[k].to);
            } else if k < g {
                assert(moves[k].to != moves[g].to);
            }
        } else {
            lemma_not_moved(plan, i);
        }
    }
    assert forall|name: Seq<char>|
        #![trigger dir.dom().contains(name)]
        dir.dom().contains(name) && (forall|i: int|
            0 <= i < plan.len() ==> (#[trigger] plan[i]).from_text() != name && plan[i].to_text()
                != name) implies after.dom().contains(name) && after[name] == dir[name] by {
        if schedule::is_source(moves, name) {
            let m = choose|m: int| 0 <= m < moves.len() && (#[trigger] moves[m]).from == name;
            assert(moves[m] == move_of(plan[origin(plan, m)]));
            assert(plan[origin(plan, m)].from_text() == name);
        }
        if schedule::is_goal(moves, name) {
            let m = choose|m: int| 0 <= m < moves.len() && (#[trigger] moves[m]).to == name;
            assert(moves[m] == move_of(plan[origin(plan, m)]));
            assert(plan[origin(plan, m)].to_text() == name);
        }
    }
}

/// Whether `plan` gives a folder the name `name`.
pub open spec fn gives(plan: Seq<RenameOp>, name: Seq<char>) -> bool {
    exists|i: int| 0 <= i < plan.len() && (#[trigger] plan[i]).to_text() == name
}

/// Whether `plan` names the folder that has the name `name`.
pub open spec fn takes(plan: Seq<RenameOp>, name: Seq<char>) -> bool {
    exists|i: int| 0 <= i < plan.len() && (#[trigger] plan[i]).from_text() == name
}

/// Whether `name` is the name of a plain entry.
pub open spec fn plain_name(entries: Seq<NameShape>, name: Seq<char>) -> bool {
    exists|k: int|
        0 <= k < entries.len() && #[trigger] entries[k] is Normal && entries[k].text() == name
}

/// The names in use in the directory that a fitting plan asks for are the
/// names that the plan gives, and the names of the folders that the plan
/// does not name; none besides.
pub proof fn lemma_settled_names(dir: Directory, plan: Seq<RenameOp>)
    requires
        well_planned(dir, plan),
    ensures
        forall|name: Seq<char>|
            #![trigger schedule::settled(dir, schedule::moves_of(plan)).dom().contains(name)]
            schedule::settled(dir, schedule::moves_of(plan)).dom().contains(name) <==> gives(
                plan,
                name,
            ) || (dir.dom().contains(name) && !takes(plan, name)),
{
    let moves = schedule::moves_of(plan);
    let after = schedule::settled(dir, moves);
    lemma_origin(plan);
    lemma_settled_plan(dir, plan);
    assert forall|name: Seq<char>| #![trigger after.dom().contains(name)]
        after.dom().contains(name) <==> gives(plan, name) || (dir.dom().contains(name) && !takes(
            plan,
            name,
        )) by {
        if after.dom().contains(name) {
            if schedule::is_goal(moves, name) {
                let m = choose|m: int| 0 <= m < moves.len() && (#[trigger] moves[m]).to == name;
                assert(moves[m] == move_of(plan[origin(plan, m)]));
                assert(plan[origin(plan, m)].to_text() == name);
            } else if takes(plan, name) {
                let i = choose|i: int|
                    0 <= i < plan.len() && (#[trigger] plan[i]).from_text() == name;
                if planner::changes(plan[i]) {
                    let k = choose|k: int| 0 <= k < moves.len() && #[trigger] origin(plan, k) == i;
                    assert(moves[k] == move_of(plan[i]));
                    assert(schedule::is_source(moves, name));
                }
                assert(plan[i].to_text() == name);
            }
        }
        if gives(plan, name) {
            let i = choose|i: int| 0 <= i < plan.len() && (#[trigger] plan[i]).to_text() == name;
            assert(after.dom().contains(plan[i].to_text()));
        }
        if dir.dom().contains(name) && !takes(plan, name) {
            assert forall|i: int| 0 <= i < plan.len() implies (#[trigger] plan[i]).from_text()
                != name by {}
            if schedule::is_source(moves, name) {
                let m = choose|m: int| 0 <= m < moves.len() && (#[trigger] moves[m]).from == name;
                assert(moves[m] == move_of(plan[origin(plan, m)]));
                assert(plan[origin(plan, m)].from_text() == name);
            }
        }
    }
}

/// The name of a folder that an instruction leaves as it is, is neither
/// taken nor given by the renames of the plan.
proof fn lemma_not_moved(plan: Seq<RenameOp>, i: int)
    requires
        0 <= i < plan.len(),
        !planner::changes(plan[i]),
        forall|i: int, j: int|
            0 <= i < j < plan.len() ==> (#[trigger] plan[i]).from_text() != (
            #[trigger] plan[j]).from_text(),
        forall|i: int, j: int|
            0 <= i < j < plan.len() ==> (#[trigger] plan[i]).to_text() != (
            #[trigger] plan[j]).to_text(),
    ensures
        !schedule::is_source(schedule::moves_of(plan), plan[i].from_text()),
        !schedule::is_goal(schedule::moves_of(plan), plan[i].from_text()),
{
    let moves = schedule::moves_of(plan);
    let name = plan[i].from_text();
    lemma_origin(plan);
    if schedule::is_source(moves, name) {
        let m = choose|m: int| 0 <= m < moves.len() && (#[trigger] moves[m]).from == name;
        let j = origin(plan, m);
        assert(moves[m] == move_of(plan[j]));
        if j < i {
            assert(plan[j].from_text() != plan[i].from_text());
        } else if i < j {
            assert(plan[i].from_text() != plan[j].from_text());
        }
    }
    if schedule::is_goal(moves, name) {
        let m = choose|m: int| 0 <= m < moves.len() && (#[trigger] moves[m]).to == name;
        let j = origin(plan, m);
        assert(moves[m] == move_of(plan[j]));
        if j < i {
            assert(plan[j].to_text() != plan[i].to_text());
        } else if i < j {
            assert(plan[i].to_text() != plan[j].to_text());
        }
    }
}

/// A plain entry of a faithful listing has a name that the plan to close
/// the numbering neither takes nor gives.
pub proof fn lemma_reorder_spares_plain(entries: Seq<NameShape>, dir: Directory, k: int)
    requires
        faithful(entries, dir),
        0 <= k < entries.len(),
        entries[k] is Normal,
    ensures
        forall|i: int|
            0 <= i < planner::reorder_plan(entries).len() ==> (#[trigger] planner::reorder_plan(
                entries,
            )[i]).from_text() != entries[k].text() && planner::reorder_plan(entries)[i].to_text()
                != entries[k].text(),
{
    let plan = planner::reorder_plan(entries);
    let name = entries[k].text();
    planner::lemma_reorder_plan(entries);
    planner::lemma_numbered_of_len(entries);
    lemma_numbered_of(entries);
    lemma_ranked_members(planner::numbered_of(entries));
    let names = planner::numbered_of(entries);
    let ranked = ranking::ranked(names);
    assert(entries[k] == entities::parse_name(name));
    assert forall|i: int| 0 <= i < plan.len() implies (#[trigger] plan[i]).from_text() != name
        && plan[i].to_text() != name by {
        assert(ranked.contains(ranked[i]));
        assert(names.contains(ranked[i]));
        let j = choose|j: int| 0 <= j < names.len() && names[j] == ranked[i];
        assert(entries.contains(NameShape::Numbered(names[j])));
        let e = choose|e: int|
            0 <= e < entries.len() && entries[e] == NameShape::Numbered(ranked[i]);
        assert(entries[e] == entities::parse_name(entries[e].text()));
        entities::lemma_parse_text(plan[i].new_name);
    }
}

/// The plan that closes the numbering names every numbered entry of a
/// faithful listing and no plain one.
pub proof fn lemma_reorder_takes(entries: Seq<NameShape>, dir: Directory, name: Seq<char>)
    requires
        faithful(entries, dir),
    ensures
        dir.dom().contains(name) && !takes(planner::reorder_plan(entries), name) <==> plain_name(
            entries,
            name,
        ),
{
    let plan = planner::reorder_plan(entries);
    let names = planner::numbered_of(entries);
    let ranked = ranking::ranked(names);
    planner::lemma_reorder_plan(entries);
    lemma_numbered_of(entries);
    lemma_ranked_members(names);
    if dir.dom().contains(name) && !takes(plan, name) {
        let e = choose|e: int| 0 <= e < entries.len() && (#[trigger] entries[e]).text() == name;
        if let NameShape::Numbered(n) = entries[e] {
            assert(names.contains(n));
            assert(ranked.contains(n));
            let j = choose|j: int| 0 <= j < ranked.len() && ranked[j] == n;
            assert(plan[j].target == NameShape::Numbered(ranked[j]));
            assert(plan[j].from_text() == name);
            assert(false);
        }
    }
    if plain_name(entries, name) {
        let k = choose|k: int|
            0 <= k < entries.len() && #[trigger] entries[k] is Normal && entries[k].text() == name;
        lemma_reorder_spares_plain(entries, dir, k);
        assert(dir.dom().contains(entries[k].text()));
        if takes(plan, name) {
            let i = choose|i: int| 0 <= i < plan.len() && (#[trigger] plan[i]).from_text() == name;
            assert(false);
        }
    }
}

/// Closing the numbering of a directory works out. Carried out in the
/// scheduled order, the renames planned from a faithful listing never find
/// a name in use, and they leave the directory as planned: the numbered
/// folder at rank `i` under the number `i`, and every plain folder under
/// the name it had.
pub proof fn lemma_order_settles(entries: Seq<NameShape>, dir: Directory)
    requires
        faithful(entries, dir),
    ensures
        schedule::runs(dir, schedule::schedule_of(planner::reorder_plan(entries), entries)),
        forall|i: int|
            0 <= i < planner::reorder_plan(entries).len() ==> {
                let op = #[trigger] planner::reorder_plan(entries)[i];
                let after = schedule::outcome(
                    dir,
                    schedule::schedule_of(planner::reorder_plan(entries), entries),
                );
                after.dom().contains(op.to_text()) && after[op.to_text()] == dir[op.from_text()]
            },
        forall|k: int|
            0 <= k < entries.len() && #[trigger] entries[k] is Normal ==> {
                let after = schedule::outcome(
                    dir,
                    schedule::schedule_of(planner::reorder_plan(entries), entries),
                );
                after.dom().contains(entries[k].text()) && after[entries[k].text()]
                    == dir[entries[k].text()]
            },
        forall|name: Seq<char>|
            #![trigger schedule::outcome(
                dir,
                schedule::schedule_of(planner::reorder_plan(entries), entries),
            ).dom().contains(name)]
            schedule::outcome(
                dir,
                schedule::schedule_of(planner::reorder_plan(entries), entries),
            ).dom().contains(name) <==> gives(planner::reorder_plan(entries), name) || plain_name(
                entries,
                name,
            ),
{
    let plan = planner::reorder_plan(entries);
    lemma_reorder_well_planned(entries, dir);
    lemma_moves_applicable(dir, plan);
    schedule::lemma_schedule_settles(dir, plan, entries);
    lemma_settled_plan(dir, plan);
    lemma_settled_names(dir, plan);
    assert forall|name: Seq<char>| dir.dom().contains(name) && !takes(plan, name) <==> plain_name(
        entries,
        name,
    ) by {
        lemma_reorder_takes(entries, dir, name);
    }
    assert forall|k: int| 0 <= k < entries.len() && #[trigger] entries[k] is Normal implies {
        let after = schedule::settled(dir, schedule::moves_of(plan));
        after.dom().contains(entries[k].text()) && after[entries[k].text()]
            == dir[entries[k].text()]
    } by {
        lemma_reorder_spares_plain(entries, dir, k);
        assert(dir.dom().contains(entries[k].text()));
    }
}

/// The instructions that put each of `cands` at its place, whether or not
/// they change a name.
pub open spec fn placed_all(cands: Seq<NameShape>, width: nat) -> Seq<RenameOp> {
    Seq::new(cands.len(), |i: int| planner::placed(cands[i], i as nat, width))
}

/// The width that numbers are padded to when `target` is put at `rank`.
pub open spec fn number_width(entries: Seq<NameShape>, target: NameShape, rank: nat) -> nat {
    crate::digits::digit_count(planner::highest(planner::others_ranked(entries, target), rank))
}

/// Leaving out the instructions that change nothing leaves out no rename.
pub proof fn lemma_kept_moves(cands: Seq<NameShape>, at: int, width: nat)
    ensures
        schedule::moves_of(planner::kept(cands, at, width)) == schedule::moves_of(
            placed_all(cands, width),
        ),
        planner::kept(cands, at, width).len() <= cands.len(),
    decreases cands.len(),
{
    if cands.len() > 0 {
        let i = cands.len() - 1;
        let op = planner::placed(cands[i], i as nat, width);
        lemma_kept_moves(cands.drop_last(), at, width);
        assert(placed_all(cands, width).drop_last() =~= placed_all(cands.drop_last(), width));
        assert(placed_all(cands, width).last() == op);
        if i == at || planner::changes(op) {
            let some = planner::kept(cands.drop_last(), at, width).push(op);
            assert(some.drop_last() =~= planner::kept(cands.drop_last(), at, width));
            assert(some.last() == op);
        }
    } else {
        assert(placed_all(cands, width) =~= Seq::<RenameOp>::empty());
    }
}

/// What is left when a target is taken out of a list of names: the names
/// that are not the target, none twice where none was in twice.
pub proof fn lemma_without(names: Seq<NumberedName>, target: NameShape)
    ensures
        forall|n: NumberedName|
            #![trigger planner::without(names, target).contains(n)]
            #![trigger names.contains(n)]
            planner::without(names, target).contains(n) <==> names.contains(n)
                && NameShape::Numbered(n) != target,
        names.no_duplicates() ==> planner::without(names, target).no_duplicates(),
        planner::without(names, target).len() <= names.len(),
    decreases names.len(),
{
    if names.len() > 0 {
        let rest = names.drop_last();
        let last = names.last();
        lemma_without(rest, target);
        let left = planner::without(names, target);
        let fewer = planner::without(rest, target);
        assert forall|n: NumberedName|
            #![trigger left.contains(n)]
            #![trigger names.contains(n)]
            left.contains(n) <==> names.contains(n) && NameShape::Numbered(n) != target by {
            if left.contains(n) {
                let j = choose|j: int| 0 <= j < left.len() && left[j] == n;
                if j < fewer.len() {
                    assert(fewer[j] == n);
                    assert(fewer.contains(n));
                    let k = choose|k: int| 0 <= k < rest.len() && rest[k] == n;
                    assert(names[k] == n);
                } else {
                    assert(names[names.len() - 1] == n);
                }
            }
            if names.contains(n) && NameShape::Numbered(n) != target {
                let k = choose|k: int| 0 <= k < names.len() && names[k] == n;
                if k < rest.len() {
                    assert(rest[k] == n);
                    assert(rest.contains(n));
                    let j = choose|j: int| 0 <= j < fewer.len() && fewer[j] == n;
                    assert(left[j] == n);
                } else {
                    assert(left[left.len() - 1] == n);
                }
            }
        }
        if names.no_duplicates() {
            assert(rest.no_duplicates()) by {
                assert forall|i: int, j: int|
                    0 <= i < rest.len() && 0 <= j < rest.len() && i != j implies rest[i]
                    != rest[j] by {
                    assert(rest[i] == names[i] && rest[j] == names[j]);
                }
            }
            assert forall|i: int, j: int|
                0 <= i < left.len() && 0 <= j < left.len() && i != j implies left[i]
                != left[j] by {
                if i < fewer.len() && j < fewer.len() {
                    assert(left[i] == fewer[i] && left[j] == fewer[j]);
                } else {
                    let low = if i < j {
                        i
                    } else {
                        j
                    };
                    assert(left[low] == fewer[low]);
                    assert(fewer.contains(fewer[low]));
                    let k = choose|k: int| 0 <= k < rest.len() && rest[k] == fewer[low];
                    assert(names[k] == rest[k]);
                    assert(names[k] != names[names.len() - 1]);
                }
            }
        }
    }
}

/// The folders that get a number when `target`, an entry of a faithful
/// listing, is put at a rank: each is an entry, none is there twice, the
/// target is among them, and so is every numbered entry.
pub proof fn lemma_candidates(
    entries: Seq<NameShape>,
    dir: Directory,
    target: NameShape,
    rank: nat,
)
    requires
        faithful(entries, dir),
        entries.contains(target),
    ensures
        planner::candidates(entries, target, rank).len() == planner::others_ranked(
            entries,
            target,
        ).len() + 1,
        planner::candidates(entries, target, rank).len() <= entries.len() + 1,
        planner::candidates(entries, target, rank).no_duplicates(),
        forall|i: int|
            0 <= i < planner::candidates(entries, target, rank).len() ==> entries.contains(
                #[trigger] planner::candidates(entries, target, rank)[i],
            ),
        forall|n: NumberedName|
            entries.contains(NameShape::Numbered(n)) ==> planner::candidates(
                entries,
                target,
                rank,
            ).contains(NameShape::Numbered(n)),
        0 <= planner::below(planner::others_ranked(entries, target), rank)
            <= planner::others_ranked(entries, target).len(),
        planner::candidates(entries, target, rank)[planner::below(
            planner::others_ranked(entries, target),
            rank,
        ) as int] == target,
{
    let names = planner::numbered_of(entries);
    let left = planner::without(names, target);
    let others = planner::others_ranked(entries, target);
    let at = planner::below(others, rank) as int;
    let shapes = others.map_values(|n: NumberedName| NameShape::Numbered(n));
    let cands = planner::candidates(entries, target, rank);
    lemma_faithful_no_duplicates(entries, dir);
    lemma_numbered_of(entries);
    planner::lemma_numbered_of_len(entries);
    lemma_without(names, target);
    lemma_ranked_members(left);
    ranking::lemma_ranked_is_ranked(left);
    planner::lemma_below_bound(others, rank);
    assert(cands == shapes.insert(at, target));
    assert forall|i: int| 0 <= i < cands.len() implies entries.contains(#[trigger] cands[i]) by {
        if i != at {
            let m = if i < at {
                i
            } else {
                i - 1
            };
            assert(cands[i] == NameShape::Numbered(others[m]));
            assert(others.contains(others[m]));
            assert(left.contains(others[m]));
            assert(names.contains(others[m]));
            let j = choose|j: int| 0 <= j < names.len() && names[j] == others[m];
            assert(entries.contains(NameShape::Numbered(names[j])));
        }
    }
    assert forall|i: int, j: int|
        0 <= i < cands.len() && 0 <= j < cands.len() && i != j implies cands[i] != cands[j] by {
        let mi = if i < at {
            i
        } else {
            i - 1
        };
        let mj = if j < at {
            j
        } else {
            j - 1
        };
        if i == at {
            assert(cands[j] == NameShape::Numbered(others[mj]));
            assert(others.contains(others[mj]));
            assert(left.contains(others[mj]));
        } else if j == at {
            assert(cands[i] == NameShape::Numbered(others[mi]));
            assert(others.contains(others[mi]));
            assert(left.contains(others[mi]));
        } else {
            assert(cands[i] == NameShape::Numbered(others[mi]));
            assert(cands[j] == NameShape::Numbered(others[mj]));
            assert(others[mi] != others[mj]);
        }
    }
    lemma_candidates_cover(entries, target, rank);
}

/// The instructions that put `target`, an entry of a faithful listing, at
/// a rank fit the directory that the entries were listed from.
pub proof fn lemma_number_well_planned(
    entries: Seq<NameShape>,
    dir: Directory,
    target: NameShape,
    rank: nat,
)
    requires
        faithful(entries, dir),
        entries.contains(target),
    ensures
        well_planned(
            dir,
            placed_all(
                planner::candidates(entries, target, rank),
                number_width(entries, target, rank),
            ),
        ),
{
    let cands = planner::candidates(entries, target, rank);
    let width = number_width(entries, target, rank);
    let plan = placed_all(cands, width);
    lemma_candidates(entries, dir, target, rank);
    assert forall|i: int| 0 <= i < plan.len() implies {
        &&& (#[trigger] plan[i]).target == cands[i]
        &&& plan[i].new_name.value == i
        &&& plan[i].new_name.wf()
        &&& cands[i] == entities::parse_name(cands[i].text())
        &&& dir.dom().contains(plan[i].from_text())
    } by {
        assert(entries.contains(cands[i]));
        let k = choose|k: int| 0 <= k < entries.len() && entries[k] == cands[i];
        assert(entries[k] == entities::parse_name(entries[k].text()));
        assert(dir.dom().contains(entries[k].text()));
    }
    assert forall|i: int, j: int| 0 <= i < j < plan.len() implies (#[trigger] plan[i]).from_text()
        != (#[trigger] plan[j]).from_text() by {
        assert(cands[i] != cands[j]);
        assert(plan[i].target == cands[i] && plan[j].target == cands[j]);
    }
    assert forall|i: int, j: int| 0 <= i < j < plan.len() implies (#[trigger] plan[i]).to_text()
        != (#[trigger] plan[j]).to_text() by {
        if plan[i].to_text() == plan[j].to_text() {
            ranking::lemma_text_value(plan[i].new_name, plan[j].new_name);
            assert(plan[i].new_name.value == i && plan[j].new_name.value == j);
        }
    }
    assert forall|i: int|
        0 <= i < plan.len() && planner::changes(#[trigger] plan[i]) && dir.dom().contains(
            plan[i].to_text(),
        ) implies exists|j: int|
        0 <= j < plan.len() && planner::changes(#[trigger] plan[j]) && plan[j].from_text()
            == plan[i].to_text() by {
        let given = plan[i].new_name;
        assert(given.value == i && given.wf());
        let e = choose|e: int|
            0 <= e < entries.len() && (#[trigger] entries[e]).text() == given.text();
        assert(entries[e] == entities::parse_name(entries[e].text()));
        entities::lemma_parse_text(given);
        assert(entries[e] == NameShape::Numbered(given));
        assert(entries.contains(NameShape::Numbered(given)));
        assert(cands.contains(NameShape::Numbered(given)));
        let j = choose|j: int| 0 <= j < cands.len() && cands[j] == NameShape::Numbered(given);
        assert(plan[j].target == cands[j]);
        assert(plan[j].from_text() == plan[i].to_text());
        if i < j {
            assert(plan[i].to_text() != plan[j].to_text());
        } else if j < i {
            assert(plan[j].to_text() != plan[i].to_text());
        }
        assert(planner::changes(plan[j]));
    }
}

/// Whether `name` is the name of a plain entry other than `target`.
pub open spec fn plain_other(entries: Seq<NameShape>, target: NameShape, name: Seq<char>) -> bool {
    exists|k: int|
        0 <= k < entries.len() && #[trigger] entries[k] is Normal && entries[k] != target
            && entries[k].text() == name
}

/// The instructions for a target name every numbered entry of a faithful
/// listing, and the target, and no other plain entry.
pub proof fn lemma_number_takes(
    entries: Seq<NameShape>,
    dir: Directory,
    target: NameShape,
    rank: nat,
    name: Seq<char>,
)
    requires
        faithful(entries, dir),
        entries.contains(target),
    ensures
        dir.dom().contains(name) && !takes(
            placed_all(
                planner::candidates(entries, target, rank),
                number_width(entries, target, rank),
            ),
            name,
        ) <==> plain_other(entries, target, name),
{
    let cands = planner::candidates(entries, target, rank);
    let plan = placed_all(cands, number_width(entries, target, rank));
    let at = planner::below(planner::others_ranked(entries, target), rank) as int;
    lemma_candidates(entries, dir, target, rank);
    if dir.dom().contains(name) && !takes(plan, name) {
        let e = choose|e: int| 0 <= e < entries.len() && (#[trigger] entries[e]).text() == name;
        if let NameShape::Numbered(n) = entries[e] {
            assert(entries.contains(NameShape::Numbered(n)));
            assert(cands.contains(NameShape::Numbered(n)));
            let j = choose|j: int| 0 <= j < cands.len() && cands[j] == NameShape::Numbered(n);
            assert(plan[j].from_text() == name);
            assert(false);
        }
        if entries[e] == target {
            assert(plan[at].from_text() == name);
            assert(false);
        }
    }
    if plain_other(entries, target, name) {
        let k = choose|k: int|
            0 <= k < entries.len() && #[trigger] entries[k] is Normal && entries[k] != target
                && entries[k].text() == name;
        lemma_number_spares_plain(entries, dir, target, rank, k);
        assert(dir.dom().contains(entries[k].text()));
        if takes(plan, name) {
            let i = choose|i: int| 0 <= i < plan.len() && (#[trigger] plan[i]).from_text() == name;
            assert(false);
        }
    }
}

/// Putting a folder at a rank works out. Carried out in the scheduled
/// order, the renames planned from a faithful listing for one of its
/// entries never find a name in use, and they leave the directory as
/// planned: the folder that comes `i`-th among the candidates under the
/// number `i`, and every plain folder but the target under the name it
/// had.
pub proof fn lemma_number_settles(
    entries: Seq<NameShape>,
    dir: Directory,
    target: NameShape,
    rank: nat,
)
    requires
        faithful(entries, dir),
        entries.contains(target),
    ensures
        schedule::runs(
            dir,
            schedule::schedule_of(planner::assign_rank_plan(entries, target, rank), entries),
        ),
        forall|i: int|
            0 <= i < planner::candidates(entries, target, rank).len() ==> {
                let cand = #[trigger] planner::candidates(entries, target, rank)[i];
                let op = planner::placed(cand, i as nat, number_width(entries, target, rank));
                let after = schedule::outcome(
                    dir,
                    schedule::schedule_of(
                        planner::assign_rank_plan(entries, target, rank),
                        entries,
                    ),
                );
                after.dom().contains(op.to_text()) && after[op.to_text()] == dir[cand.text()]
            },
        forall|k: int|
            0 <= k < entries.len() && #[trigger] entries[k] is Normal && entries[k] != target ==> {
                let after = schedule::outcome(
                    dir,
                    schedule::schedule_of(
                        planner::assign_rank_plan(entries, target, rank),
                        entries,
                    ),
                );
                after.dom().contains(entries[k].text()) && after[entries[k].text()]
                    == dir[entries[k].text()]
            },
        forall|name: Seq<char>|
            #![trigger schedule::outcome(
                dir,
                schedule::schedule_of(planner::assign_rank_plan(entries, target, rank), entries),
            ).dom().contains(name)]
            schedule::outcome(
                dir,
                schedule::schedule_of(planner::assign_rank_plan(entries, target, rank), entries),
            ).dom().contains(name) <==> gives(
                placed_all(
                    planner::candidates(entries, target, rank),
                    number_width(entries, target, rank),
                ),
                name,
            ) || plain_other(entries, target, name),
{
    let cands = planner::candidates(entries, target, rank);
    let width = number_width(entries, target, rank);
    let all = placed_all(cands, width);
    let plan = planner::assign_rank_plan(entries, target, rank);
    let at = planner::below(planner::others_ranked(entries, target), rank) as int;
    assert(plan == planner::kept(cands, at, width));
    lemma_kept_moves(cands, at, width);
    lemma_number_well_planned(entries, dir, target, rank);
    lemma_moves_applicable(dir, all);
    schedule::lemma_schedule_settles(dir, plan, entries);
    lemma_settled_plan(dir, all);
    lemma_settled_names(dir, all);
    assert forall|name: Seq<char>| dir.dom().contains(name) && !takes(all, name) <==> plain_other(
        entries,
        target,
        name,
    ) by {
        lemma_number_takes(entries, dir, target, rank, name);
    }
    let after = schedule::settled(dir, schedule::moves_of(all));
    assert forall|i: int| 0 <= i < cands.len() implies {
        let cand = #[trigger] cands[i];
        let op = planner::placed(cand, i as nat, width);
        after.dom().contains(op.to_text()) && after[op.to_text()] == dir[cand.text()]
    } by {
        assert(all[i] == planner::placed(cands[i], i as nat, width));
    }
    assert forall|k: int|
        0 <= k < entries.len() && #[trigger] entries[k] is Normal && entries[k]
            != target implies after.dom().contains(entries[k].text()) && after[entries[k].text()]
        == dir[entries[k].text()] by {
        lemma_number_spares_plain(entries, dir, target, rank, k);
        assert(dir.dom().contains(entries[k].text()));
    }
}

/// A plain entry of a faithful listing that is not the target has a name
/// that the instructions for the target neither take nor give.
pub proof fn lemma_number_spares_plain(
    entries: Seq<NameShape>,
    dir: Directory,
    target: NameShape,
    rank: nat,
    k: int,
)
    requires
        faithful(entries, dir),
        entries.contains(target),
        0 <= k < entries.len(),
        entries[k] is Normal,
        entries[k] != target,
    ensures
        forall|i: int|
            0 <= i < planner::candidates(entries, target, rank).len() ==> {
                let op = #[trigger] placed_all(
                    planner::candidates(entries, target, rank),
                    number_width(entries, target, rank),
                )[i];
                op.from_text() != entries[k].text() && op.to_text() != entries[k].text()
            },
{
    let cands = planner::candidates(entries, target, rank);
    let width = number_width(entries, target, rank);
    let plan = placed_all(cands, width);
    let name = entries[k].text();
    lemma_candidates(entries, dir, target, rank);
    assert(entries[k] == entities::parse_name(name));
    assert forall|i: int| 0 <= i < cands.len() implies (#[trigger] plan[i]).from_text() != name
        && plan[i].to_text() != name by {
        assert(entries.contains(cands[i]));
        let e = choose|e: int| 0 <= e < entries.len() && entries[e] == cands[i];
        assert(entries[e] == entities::parse_name(entries[e].text()));
        if e < k {
            assert(entries[e].text() != entries[k].text());
        } else if k < e {
            assert(entries[k].text() != entries[e].text());
        } else {
            // The entry is plain and a candidate, so it is the target.
            let at = planner::below(planner::others_ranked(entries, target), rank) as int;
            assert(i == at) by {
                if i != at {
                    let m = if i < at {
                        i
                    } else {
                        i - 1
                    };
                    assert(cands[i] == NameShape::Numbered(
                        planner::others_ranked(entries, target)[m],
                    ));
                }
            }
        }
        assert(plan[i].new_name.value == i && plan[i].new_name.wf());
        entities::lemma_parse_text(plan[i].new_name);
    }
}

/// The folders that get a number when `target` is put at a rank, whatever
/// the target is: the target stands at the place of its rank, every
/// numbered entry is among them, and they are at most one more than the
/// entries.
pub proof fn lemma_candidates_cover(entries: Seq<NameShape>, target: NameShape, rank: nat)
    ensures
        planner::candidates(entries, target, rank).len() == planner::others_ranked(
            entries,
            target,
        ).len() + 1,
        planner::candidates(entries, target, rank).len() <= entries.len() + 1,
        0 <= planner::below(planner::others_ranked(entries, target), rank)
            <= planner::others_ranked(entries, target).len(),
        planner::candidates(entries, target, rank)[planner::below(
            planner::others_ranked(entries, target),
            rank,
        ) as int] == target,
        forall|n: NumberedName|
            entries.contains(NameShape::Numbered(n)) ==> planner::candidates(
                entries,
                target,
                rank,
            ).contains(NameShape::Numbered(n)),
{
    let names = planner::numbered_of(entries);
    let left = planner::without(names, target);
    let others = planner::others_ranked(entries, target);
    let at = planner::below(others, rank) as int;
    let shapes = others.map_values(|n: NumberedName| NameShape::Numbered(n));
    let cands = planner::candidates(entries, target, rank);
    lemma_numbered_of(entries);
    planner::lemma_numbered_of_len(entries);
    lemma_without(names, target);
    lemma_ranked_members(left);
    ranking::lemma_ranked_is_ranked(left);
    planner::lemma_below_bound(others, rank);
    assert(cands == shapes.insert(at, target));
    assert forall|n: NumberedName| entries.contains(NameShape::Numbered(n)) implies cands.contains(
        NameShape::Numbered(n),
    ) by {
        if NameShape::Numbered(n) == target {
            assert(cands[at] == target);
        } else {
            let k = choose|k: int| 0 <= k < entries.len() && entries[k] == NameShape::Numbered(n);
            assert(names.contains(n));
            assert(left.contains(n));
            assert(others.contains(n));
            let m = choose|m: int| 0 <= m < others.len() && others[m] == n;
            let i = if m < at {
                m
            } else {
                m + 1
            };
            assert(cands[i] == NameShape::Numbered(others[m]));
        }
    }
}

/// A plan has nothing in the way of its renames where no two instructions
/// give the same name and a new name that is in use belongs to a folder
/// that another instruction renames.
pub proof fn lemma_moves_unobstructed(dir: Directory, plan: Seq<RenameOp>)
    requires
        forall|i: int, j: int|
            0 <= i < j < plan.len() ==> (#[trigger] plan[i]).to_text() != (
            #[trigger] plan[j]).to_text(),
        forall|i: int|
            0 <= i < plan.len() && planner::changes(#[trigger] plan[i]) && dir.dom().contains(
                plan[i].to_text(),
            ) ==> exists|j: int|
                0 <= j < plan.len() && planner::changes(#[trigger] plan[j]) && plan[j].from_text()
                    == plan[i].to_text(),
    ensures
        schedule::unobstructed(dir, schedule::moves_of(plan)),
{
    let moves = schedule::moves_of(plan);
    lemma_origin(plan);
    assert forall|k: int| 0 <= k < moves.len() implies (#[trigger] moves[k]).from
        != moves[k].to by {
        assert(moves[k] == move_of(plan[origin(plan, k)]));
    }
    assert forall|k: int, l: int| 0 <= k < l < moves.len() implies (#[trigger] moves[k]).to != (
    #[trigger] moves[l]).to by {
        assert(origin(plan, k) < origin(plan, l));
        assert(moves[k] == move_of(plan[origin(plan, k)]));
        assert(moves[l] == move_of(plan[origin(plan, l)]));
    }
    assert forall|k: int|
        0 <= k < moves.len() && dir.dom().contains(
            (#[trigger] moves[k]).to,
        ) implies schedule::is_source(moves, moves[k].to) by {
        let i = origin(plan, k);
        assert(moves[k] == move_of(plan[i]));
        let j = choose|j: int|
            0 <= j < plan.len() && planner::changes(#[trigger] plan[j]) && plan[j].from_text()
                == plan[i].to_text();
        let l = choose|l: int| 0 <= l < moves.len() && #[trigger] origin(plan, l) == j;
        assert(moves[l] == move_of(plan[j]));
        assert(moves[l].from == moves[k].to);
    }
}

/// Putting a folder at a rank never renames a folder to a name in use,
/// whatever the target is. Carried out in the scheduled order, the renames
/// planned from a faithful listing find each new name free, for as long as
/// the folders to rename are there: also for a target that is not in the
/// listing, or that is given as plain though its name starts with a
/// number, which makes the plan name one folder twice.
pub proof fn lemma_number_finds_free(
    entries: Seq<NameShape>,
    dir: Directory,
    target: NameShape,
    rank: nat,
)
    requires
        faithful(entries, dir),
    ensures
        schedule::finds_free(
            dir,
            schedule::schedule_of(planner::assign_rank_plan(entries, target, rank), entries),
        ),
{
    let cands = planner::candidates(entries, target, rank);
    let width = number_width(entries, target, rank);
    let all = placed_all(cands, width);
    let plan = planner::assign_rank_plan(entries, target, rank);
    let at = planner::below(planner::others_ranked(entries, target), rank) as int;
    assert(plan == planner::kept(cands, at, width));
    lemma_kept_moves(cands, at, width);
    lemma_candidates_cover(entries, target, rank);
    assert forall|i: int| 0 <= i < all.len() implies {
        &&& (#[trigger] all[i]).target == cands[i]
        &&& all[i].new_name.value == i
        &&& all[i].new_name.wf()
    } by {}
    assert forall|i: int, j: int| 0 <= i < j < all.len() implies (#[trigger] all[i]).to_text()
        != (#[trigger] all[j]).to_text() by {
        if all[i].to_text() == all[j].to_text() {
            ranking::lemma_text_value(all[i].new_name, all[j].new_name);
            assert(all[i].new_name.value == i && all[j].new_name.value == j);
        }
    }
    assert forall|i: int|
        0 <= i < all.len() && planner::changes(#[trigger] all[i]) && dir.dom().contains(
            all[i].to_text(),
        ) implies exists|j: int|
        0 <= j < all.len() && planner::changes(#[trigger] all[j]) && all[j].from_text()
            == all[i].to_text() by {
        let given = all[i].new_name;
        assert(given.value == i && given.wf());
        let e = choose|e: int|
            0 <= e < entries.len() && (#[trigger] entries[e]).text() == given.text();
        assert(entries[e] == entities::parse_name(entries[e].text()));
        entities::lemma_parse_text(given);
        assert(entries[e] == NameShape::Numbered(given));
        assert(entries.contains(NameShape::Numbered(given)));
        assert(cands.contains(NameShape::Numbered(given)));
        let j = choose|j: int| 0 <= j < cands.len() && cands[j] == NameShape::Numbered(given);
        assert(all[j].target == cands[j]);
        assert(all[j].from_text() == all[i].to_text());
        if i < j {
            assert(all[i].to_text() != all[j].to_text());
        } else if j < i {
            assert(all[j].to_text() != all[i].to_text());
        }
        assert(planner::changes(all[j]));
    }
    lemma_moves_unobstructed(dir, all);
    schedule::lemma_schedule_finds_free(dir, plan, entries);
}

/// Closing the numbering never renames a folder to a name in use: the
/// renames planned from a faithful listing find each new name free.
pub proof fn lemma_order_finds_free(entries: Seq<NameShape>, dir: Directory)
    requires
        faithful(entries, dir),
    ensures
        schedule::finds_free(
            dir,
            schedule::schedule_of(planner::reorder_plan(entries), entries),
        ),
{
    lemma_order_settles(entries, dir);
    schedule::lemma_runs_finds_free(
        dir,
        schedule::schedule_of(planner::reorder_plan(entries), entries),
    );
}

/// Whether `names` are what listing the directory `dir` gives: the names
/// in use, each once, and no more of them than can be counted.
pub open spec fn listed(names: Seq<String>, dir: Directory) -> bool {
    &&& names.len() <= usize::MAX
    &&& forall|i: int, j: int|
        0 <= i < j < names.len() ==> (#[trigger] names[i])@ != (#[trigger] names[j])@
    &&& forall|i: int| 0 <= i < names.len() ==> dir.dom().contains((#[trigger] names[i])@)
    &&& forall|name: Seq<char>| #[trigger]
        dir.dom().contains(name) ==> exists|i: int|
            0 <= i < names.len() && (#[trigger] names[i])@ == name
}

/// The shapes of the names that a directory lists are a faithful listing
/// of it.
pub proof fn lemma_listed_faithful(names: Seq<String>, dir: Directory)
    requires
        listed(names, dir),
    ensures
        faithful(entities::parsed(names), dir),
        forall|i: int|
            0 <= i < names.len() ==> (#[trigger] entities::parsed(names)[i]).text() == names[i]@,
{
    let entries = entities::parsed(names);
    assert forall|i: int| 0 <= i < names.len() implies (#[trigger] entries[i]).text() == names[i]@
        && entries[i] == entities::parse_name(entries[i].text()) by {
        entities::lemma_render_parse(names[i]@);
    }
    assert forall|name: Seq<char>| #[trigger] dir.dom().contains(name) implies exists|i: int|
        0 <= i < entries.len() && (#[trigger] entries[i]).text() == name by {
        let i = choose|i: int| 0 <= i < names.len() && (#[trigger] names[i])@ == name;
        assert(entries[i].text() == name);
    }
}

/// The command that closes the numbering never renames a folder to a name
/// in use, whatever the directory, as long as the listing it works from is
/// true.
pub proof fn lemma_order_runs(names: Seq<String>, dir: Directory)
    requires
        listed(names, dir),
    ensures
        schedule::runs(dir, usecase::steps_to_order(names)),
{
    lemma_listed_faithful(names, dir);
    lemma_order_settles(entities::parsed(names), dir);
}

/// The command that puts a folder at a rank never renames a folder to a
/// name in use, whatever the directory, as long as the listing it works
/// from is true and the folder has the shape of its name.
pub proof fn lemma_number_runs(
    names: Seq<String>,
    dir: Directory,
    target: NameShape,
    rank: nat,
)
    requires
        listed(names, dir),
        usecase::number_refusal(names, target) is None,
        target == entities::parse_name(target.text()),
    ensures
        schedule::runs(dir, usecase::steps_to_number(names, target, rank)),
{
    lemma_listed_faithful(names, dir);
    let entries = entities::parsed(names);
    let i = choose|i: int| 0 <= i < names.len() && (#[trigger] names[i])@ == target.text();
    assert(entries[i].text() == names[i]@);
    assert(entries[i] == target);
    lemma_number_settles(entries, dir, target, rank);
}

/// The command that puts a folder at a rank never renames a folder to a
/// name in use, whatever the directory and whatever the folder it is asked
/// to place, as long as the listing it works from is true: each rename
/// finds its new name free in the directory as the renames before it have
/// left it.
pub proof fn lemma_number_never_occupied(
    names: Seq<String>,
    dir: Directory,
    target: NameShape,
    rank: nat,
)
    requires
        listed(names, dir),
    ensures
        schedule::finds_free(dir, usecase::steps_to_number(names, target, rank)),
{
    lemma_listed_faithful(names, dir);
    lemma_number_finds_free(entities::parsed(names), dir, target, rank);
}

/// The command that closes the numbering never renames a folder to a name
/// in use, as long as the listing it works from is true.
pub proof fn lemma_order_never_occupied(names: Seq<String>, dir: Directory)
    requires
        listed(names, dir),
    ensures
        schedule::finds_free(dir, usecase::steps_to_order(names)),
{
    lemma_listed_faithful(names, dir);
    lemma_order_finds_free(entities::parsed(names), dir);
}

/// Lists without a name twice that hold the same names hold each as often.
pub proof fn lemma_same_names(a: Seq<NumberedName>, b: Seq<NumberedName>)
    requires
        a.no_duplicates(),
        b.no_duplicates(),
        forall|n: NumberedName| #![trigger a.contains(n)] #![trigger b.contains(n)]
            a.contains(n) <==> b.contains(n),
    ensures
        a.to_multiset() == b.to_multiset(),
{
    broadcast use vstd::seq_lib::group_to_multiset_ensures;

    a.lemma_multiset_has_no_duplicates();
    b.lemma_multiset_has_no_duplicates();
    assert forall|n: NumberedName| a.to_multiset().count(n) == b.to_multiset().count(n) by {
        assert(a.contains(n) <==> a.to_multiset().count(n) > 0);
        assert(b.contains(n) <==> b.to_multiset().count(n) > 0);
        assert(a.contains(n) <==> b.contains(n));
        if a.contains(n) {
            assert(a.to_multiset().contains(n));
            assert(b.to_multiset().contains(n));
        }
    }
    assert(a.to_multiset() =~= b.to_multiset());
}

/// A plan of which no instruction changes a name asks for no rename.
pub proof fn lemma_no_moves(plan: Seq<RenameOp>)
    requires
        forall|i: int| 0 <= i < plan.len() ==> !planner::changes(#[trigger] plan[i]),
    ensures
        schedule::moves_of(plan) == Seq::<Move>::empty(),
    decreases plan.len(),
{
    if plan.len() > 0 {
        assert forall|i: int| 0 <= i < plan.drop_last().len() implies !planner::changes(
            #[trigger] plan.drop_last()[i],
        ) by {
            assert(plan.drop_last()[i] == plan[i]);
        }
        lemma_no_moves(plan.drop_last());
        assert(!planner::changes(plan[plan.len() - 1]));
    }
}

/// Closing the numbering twice: once the renames planned from a faithful
/// listing are carried out, a faithful listing of what the directory then
/// is asks for no rename at all.
pub proof fn lemma_order_twice(entries: Seq<NameShape>, dir: Directory, again: Seq<NameShape>)
    requires
        faithful(entries, dir),
        faithful(
            again,
            schedule::outcome(dir, schedule::schedule_of(planner::reorder_plan(entries), entries)),
        ),
    ensures
        forall|i: int|
            0 <= i < planner::reorder_plan(again).len() ==> !planner::changes(
                #[trigger] planner::reorder_plan(again)[i],
            ),
        schedule::schedule_of(planner::reorder_plan(again), again) == Seq::<Move>::empty(),
{
    let plan = planner::reorder_plan(entries);
    let after = schedule::outcome(dir, schedule::schedule_of(plan, entries));
    let given = planner::new_names(plan);
    let found = planner::numbered_of(again);
    lemma_order_settles(entries, dir);
    planner::lemma_reorder_plan(entries);
    planner::lemma_numbered_of_len(entries);
    lemma_faithful_no_duplicates(again, after);
    lemma_numbered_of(again);
    assert forall|i: int| 0 <= i < plan.len() implies (#[trigger] given[i]) == plan[i].new_name
        && entities::parse_name(plan[i].to_text()) == NameShape::Numbered(plan[i].new_name) by {
        entities::lemma_parse_text(plan[i].new_name);
    }
    assert(given.no_duplicates()) by {
        assert forall|i: int, j: int|
            0 <= i < given.len() && 0 <= j < given.len() && i != j implies given[i]
            != given[j] by {
            assert(given[i] == plan[i].new_name && given[j] == plan[j].new_name);
        }
    }
    assert forall|n: NumberedName| #![trigger given.contains(n)] #![trigger found.contains(n)]
        given.contains(n) <==> found.contains(n) by {
        if given.contains(n) {
            let i = choose|i: int| 0 <= i < given.len() && given[i] == n;
            assert(given[i] == plan[i].new_name);
            assert(after.dom().contains(plan[i].to_text()));
            let e = choose|e: int|
                0 <= e < again.len() && (#[trigger] again[e]).text() == plan[i].to_text();
            assert(again[e] == entities::parse_name(again[e].text()));
            assert(again[e] == NameShape::Numbered(n));
        }
        if found.contains(n) {
            let j = choose|j: int| 0 <= j < found.len() && found[j] == n;
            assert(again.contains(NameShape::Numbered(found[j])));
            let e = choose|e: int| 0 <= e < again.len() && again[e] == NameShape::Numbered(n);
            assert(again[e] == entities::parse_name(again[e].text()));
            assert(after.dom().contains(again[e].text()));
            let name = again[e].text();
            assert(gives(plan, name) || plain_name(entries, name));
            if gives(plan, name) {
                let i = choose|i: int|
                    0 <= i < plan.len() && (#[trigger] plan[i]).to_text() == name;
                assert(given[i] == plan[i].new_name);
                assert(NameShape::Numbered(n) == NameShape::Numbered(plan[i].new_name));
            } else {
                let k = choose|k: int|
                    0 <= k < entries.len() && #[trigger] entries[k] is Normal && entries[k].text()
                        == name;
                assert(entries[k] == entities::parse_name(entries[k].text()));
                assert(false);
            }
        }
    }
    lemma_same_names(found, given);
    planner::lemma_reorder_twice(entries, again);
    lemma_no_moves(planner::reorder_plan(again));
}

/// Running the command that closes the numbering twice: the second run
/// renames nothing, whatever the directory, as long as both listings are
/// true and the renames of the first run were all carried out.
pub proof fn lemma_order_command_twice(names: Seq<String>, dir: Directory, again: Seq<String>)
    requires
        listed(names, dir),
        listed(again, schedule::outcome(dir, usecase::steps_to_order(names))),
    ensures
        usecase::steps_to_order(again) == Seq::<Move>::empty(),
{
    lemma_listed_faithful(names, dir);
    lemma_listed_faithful(again, schedule::outcome(dir, usecase::steps_to_order(names)));
    lemma_order_twice(
        entities::parsed(names),
        dir,
        entities::parsed(again),
    );
}

/// The directory after the calls of a journal, where every rename that
/// was accepted has moved its folder and no other call has changed a name.
pub open spec fn replay(dir: Directory, calls: Seq<Event>) -> Directory
    decreases calls.len(),
{
    if calls.len() == 0 {
        dir
    } else {
        match calls[0] {
            Event::Renamed { base, step, refused: None } => replay(
                schedule::moved(dir, step),
                calls.skip(1),
            ),
            _ => replay(dir, calls.skip(1)),
        }
    }
}

/// Whether every rename of a journal was asked for while its new name was
/// free, in the directory as the accepted renames before it had left it.
pub open spec fn free_when_called(dir: Directory, calls: Seq<Event>) -> bool
    decreases calls.len(),
{
    if calls.len() == 0 {
        true
    } else {
        match calls[0] {
            Event::Renamed { base, step, refused } => !dir.dom().contains(step.to)
                && free_when_called(
                if refused is None {
                    schedule::moved(dir, step)
                } else {
                    dir
                },
                calls.skip(1),
            ),
            _ => free_when_called(dir, calls.skip(1)),
        }
    }
}

/// Whether every rename of a journal that was accepted found its folder in
/// the directory, as the accepted renames before it had left it: what a
/// directory does.
pub open spec fn found_in_place(dir: Directory, calls: Seq<Event>) -> bool
    decreases calls.len(),
{
    if calls.len() == 0 {
        true
    } else {
        match calls[0] {
            Event::Renamed { base, step, refused: None } => dir.dom().contains(step.from)
                && found_in_place(schedule::moved(dir, step), calls.skip(1)),
            _ => found_in_place(dir, calls.skip(1)),
        }
    }
}

/// The result of carrying out the steps after the first, given the result
/// for all of them, where the first was accepted.
pub open spec fn after_first(result: Result<(), usecase::RenameFailure>) -> Result<
    (),
    usecase::RenameFailure,
> {
    match result {
        Ok(()) => Ok(()),
        Err(failure) => Err(
            usecase::RenameFailure {
                step: failure.step,
                applied: (failure.applied - 1) as usize,
                error: failure.error,
            },
        ),
    }
}

/// Steps that find their new names free are each asked for while its new
/// name is free: in the journal of carrying them out, whatever the result,
/// every rename call was made while its new name was free in the directory
/// as the accepted calls had left it.
pub proof fn lemma_calls_find_free(
    dir: Directory,
    base: Seq<char>,
    steps: Seq<Move>,
    result: Result<(), usecase::RenameFailure>,
)
    requires
        schedule::finds_free(dir, steps),
        usecase::carried_out(steps, result),
        found_in_place(dir, usecase::rename_calls(base, steps, result)),
    ensures
        free_when_called(dir, usecase::rename_calls(base, steps, result)),
    decreases steps.len(),
{
    let calls = usecase::rename_calls(base, steps, result);
    if steps.len() == 0 {
        assert(result is Ok);
        assert(calls.len() == 0);
    } else {
        let refused_first = result matches Err(failure) && failure.applied == 0;
        if refused_first {
            assert(steps.take(0) =~= Seq::<Move>::empty());
            assert(calls.len() == 1);
            assert(calls[0] matches Event::Renamed { base: b, step, refused } && step == steps[0]
                && refused is Some);
            assert(calls.skip(1) =~= Seq::<Event>::empty());
            assert(free_when_called(dir, calls.skip(1)));
        } else {
            let rest = after_first(result);
            let accepted_all = usecase::accepted(base, steps);
            assert(calls[0] == Event::Renamed { base, step: steps[0], refused: None }) by {
                match result {
                    Ok(()) => {},
                    Err(failure) => {
                        assert(steps.take(failure.applied as int)[0] == steps[0]);
                    },
                }
            }
            assert(calls.skip(1) =~= usecase::rename_calls(base, steps.skip(1), rest)) by {
                match result {
                    Ok(()) => {},
                    Err(failure) => {
                        assert(steps.take(failure.applied as int).skip(1) =~= steps.skip(1).take(
                            failure.applied - 1,
                        ));
                        assert(steps.skip(1)[failure.applied - 1] == steps[failure.applied as int]);
                    },
                }
            }
            assert(dir.dom().contains(steps[0].from));
            lemma_calls_find_free(schedule::moved(dir, steps[0]), base, steps.skip(1), rest);
        }
    }
}

/// Steps that were all accepted leave the directory as carrying them out
/// one after the other does.
pub proof fn lemma_replay_accepted(dir: Directory, base: Seq<char>, steps: Seq<Move>)
    ensures
        replay(dir, usecase::accepted(base, steps)) == schedule::outcome(dir, steps),
    decreases steps.len(),
{
    let calls = usecase::accepted(base, steps);
    if steps.len() > 0 {
        assert(calls[0] == Event::Renamed { base, step: steps[0], refused: None });
        assert(calls.skip(1) =~= usecase::accepted(base, steps.skip(1)));
        lemma_replay_accepted(schedule::moved(dir, steps[0]), base, steps.skip(1));
    }
}

} // verus!
