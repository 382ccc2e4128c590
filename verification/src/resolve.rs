//! The query: the closest step per hint along one ray.

use crate::data::{get_hints, get_names, steps_view};
use crate::data::{Hint, HintIndex, HintNameView, HintStep, HintStepView, HintView};
use crate::key::coordinate_key;
use std::collections::HashMap;
use vstd::prelude::*;

verus! {

/// Step `at` of the ray shows hint `id`.
pub open spec fn seen_at(steps: Seq<HintStepView>, id: u32, at: int) -> bool {
    0 <= at < steps.len() && steps[at].hint_ids.contains(id)
}

/// Some step of the ray shows hint `id`.
pub open spec fn seen(steps: Seq<HintStepView>, id: u32) -> bool {
    exists|at: int| seen_at(steps, id, at)
}

/// Step `at` shows hint `id`, no step that shows it is nearer, and no
/// earlier step that shows it is as near.
pub open spec fn closest_at(steps: Seq<HintStepView>, id: u32, at: int) -> bool {
    &&& seen_at(steps, id, at)
    &&& forall|other: int| #[trigger]
        seen_at(steps, id, other) ==> steps[at].dist < steps[other].dist || (steps[at].dist
            == steps[other].dist && at <= other)
}

/// The result record for a hint named `names` and seen on `step`.
pub open spec fn hint_of(names: HintNameView, step: HintStepView) -> HintView {
    HintView { names, dist: step.dist, x: step.x, y: step.y }
}

/// `found` is the answer for a ray: it has an entry for exactly the hints
/// that are seen on the ray and have a name record, and each entry is
/// taken from the closest step that shows the hint, the first one among
/// equally close steps.
pub open spec fn resolves(
    names: Map<u32, HintNameView>,
    steps: Seq<HintStepView>,
    found: Map<u32, HintView>,
) -> bool {
    &&& forall|id: u32| #[trigger]
        found.contains_key(id) <==> names.contains_key(id) && seen(steps, id)
    &&& forall|id: u32| #[trigger]
        found.contains_key(id) ==> exists|at: int| #[trigger]
            closest_at(steps, id, at) && found[id] == hint_of(names[id], steps[at])
}

/// The values of the entries of a result map.
pub open spec fn hint_views<'a>(found: Map<u32, Hint<'a>>) -> Map<u32, HintView> {
    Map::new(|id: u32| found.contains_key(id), |id: u32| found[id]@)
}

/// The ray as walked so far: the first `done` steps whole, and of step
/// `done` the first `ids` identifiers.
spec fn walked(steps: Seq<HintStepView>, done: int, ids: int) -> Seq<HintStepView> {
    steps.take(done).push(
        HintStepView {
            dist: steps[done].dist,
            x: steps[done].x,
            y: steps[done].y,
            hint_ids: steps[done].hint_ids.take(ids),
        },
    )
}

/// A hint has at most one closest step.
pub proof fn lemma_closest_is_unique(steps: Seq<HintStepView>, id: u32, a: int, b: int)
    requires
        closest_at(steps, id, a),
        closest_at(steps, id, b),
    ensures
        a == b,
{
}

/// A ray has one answer only.
pub proof fn lemma_answer_is_unique(
    names: Map<u32, HintNameView>,
    steps: Seq<HintStepView>,
    first: Map<u32, HintView>,
    second: Map<u32, HintView>,
)
    requires
        resolves(names, steps, first),
        resolves(names, steps, second),
    ensures
        first == second,
{
    assert forall|id: u32| first.contains_key(id) implies first[id] == second[id] by {
        assert(second.contains_key(id));
        let a = choose|at: int| #[trigger]
            closest_at(steps, id, at) && first[id] == hint_of(names[id], steps[at]);
        let b = choose|at: int| #[trigger]
            closest_at(steps, id, at) && second[id] == hint_of(names[id], steps[at]);
        lemma_closest_is_unique(steps, id, a, b);
    }
}

/// A hint without a name record is left out of the answer, and leaving it
/// out costs no other hint its entry.
pub proof fn lemma_unnamed_hints_are_skipped(
    names: Map<u32, HintNameView>,
    steps: Seq<HintStepView>,
    found: Map<u32, HintView>,
    at: int,
    unnamed: u32,
    named: u32,
)
    requires
        resolves(names, steps, found),
        seen_at(steps, unnamed, at),
        seen_at(steps, named, at),
        !names.contains_key(unnamed),
        names.contains_key(named),
    ensures
        !found.contains_key(unnamed),
        found.contains_key(named),
{
}

/// The entry of a hint is never farther than any step that shows it.
pub proof fn lemma_closest_wins(
    names: Map<u32, HintNameView>,
    steps: Seq<HintStepView>,
    found: Map<u32, HintView>,
    id: u32,
    at: int,
)
    requires
        resolves(names, steps, found),
        names.contains_key(id),
        seen_at(steps, id, at),
    ensures
        found.contains_key(id),
        found[id].dist <= steps[at].dist,
{
    assert(found.contains_key(id));
}

/// Among the steps that show a hint at its least distance, the entry is
/// taken from the first.
pub proof fn lemma_first_of_equals_wins(
    names: Map<u32, HintNameView>,
    steps: Seq<HintStepView>,
    found: Map<u32, HintView>,
    id: u32,
    at: int,
)
    requires
        resolves(names, steps, found),
        names.contains_key(id),
        closest_at(steps, id, at),
    ensures
        found.contains_key(id),
        found[id] == hint_of(names[id], steps[at]),
{
    assert(found.contains_key(id));
    let b = choose|b: int| #[trigger]
        closest_at(steps, id, b) && found[id] == hint_of(names[id], steps[b]);
    lemma_closest_is_unique(steps, id, at, b);
}

/// A ray without steps has the empty answer.
pub proof fn lemma_empty_ray(names: Map<u32, HintNameView>, steps: Seq<HintStepView>)
    requires
        steps.len() == 0,
    ensures
        resolves(names, steps, Map::empty()),
{
}

/// Coming to a step changes nothing before one of its identifiers is
/// looked at.
proof fn lemma_enter_step(
    names: Map<u32, HintNameView>,
    steps: Seq<HintStepView>,
    found: Map<u32, HintView>,
    done: int,
)
    requires
        0 <= done < steps.len(),
        resolves(names, steps.take(done), found),
    ensures
        resolves(names, walked(steps, done, 0), found),
{
    let before = steps.take(done);
    let after = walked(steps, done, 0);
    assert forall|id: u32, at: int| seen_at(after, id, at) <==> seen_at(before, id, at) by {
    }
    assert forall|id: u32| #[trigger] found.contains_key(id) implies exists|at: int| #[trigger]
        closest_at(after, id, at) && found[id] == hint_of(names[id], after[at]) by {
        let at = choose|at: int| #[trigger]
            closest_at(before, id, at) && found[id] == hint_of(names[id], before[at]);
        assert(closest_at(after, id, at));
    }
}

/// A step with all its identifiers looked at is a step walked whole.
proof fn lemma_leave_step(steps: Seq<HintStepView>, done: int)
    requires
        0 <= done < steps.len(),
    ensures
        walked(steps, done, steps[done].hint_ids.len() as int) == steps.take(done + 1),
{
    let ids = steps[done].hint_ids;
    assert(ids.take(ids.len() as int) =~= ids);
}

/// One more identifier of the current step: the answer for the longer walk
/// is the old one, except that the identifier gets the current step where
/// it has a name record and either had no entry or had a farther one.
proof fn lemma_walk_on(
    names: Map<u32, HintNameView>,
    steps: Seq<HintStepView>,
    found: Map<u32, HintView>,
    done: int,
    ids: int,
)
    requires
        0 <= done < steps.len(),
        0 <= ids < steps[done].hint_ids.len(),
        resolves(names, walked(steps, done, ids), found),
    ensures
        ({
            let id = steps[done].hint_ids[ids];
            let fresh = hint_of(names[id], steps[done]);
            let next = if names.contains_key(id) && (!found.contains_key(id) || steps[done].dist
                < found[id].dist) {
                found.insert(id, fresh)
            } else {
                found
            };
            resolves(names, walked(steps, done, ids + 1), next)
        }),
{
    let new_id = steps[done].hint_ids[ids];
    let fresh = hint_of(names[new_id], steps[done]);
    let before = walked(steps, done, ids);
    let after = walked(steps, done, ids + 1);
    let next = if names.contains_key(new_id) && (!found.contains_key(new_id) || steps[done].dist
        < found[new_id].dist) {
        found.insert(new_id, fresh)
    } else {
        found
    };
    assert(after[done].hint_ids[ids] == new_id);
    assert forall|id: u32, at: int|
        seen_at(after, id, at) <==> seen_at(before, id, at) || (id == new_id && at == done) by {
    }
    assert forall|id: u32| #[trigger] next.contains_key(id) implies exists|at: int| #[trigger]
        closest_at(after, id, at) && next[id] == hint_of(names[id], after[at]) by {
        if id != new_id {
            let at = choose|at: int| #[trigger]
                closest_at(before, id, at) && found[id] == hint_of(names[id], before[at]);
            assert(closest_at(after, id, at));
        } else if !found.contains_key(id) {
            assert(closest_at(after, id, done));
        } else {
            let at = choose|at: int| #[trigger]
                closest_at(before, id, at) && found[id] == hint_of(names[id], before[at]);
            if steps[done].dist < found[id].dist {
                assert(closest_at(after, id, done));
            } else {
                assert(closest_at(after, id, at));
            }
        }
    }
}

/// Walks the steps in stored order and keeps, for each hint with a name
/// record, the closest step that shows it; of equally close steps the
/// first stays.
pub fn resolve_steps<'a>(index: &'a HintIndex, hint_steps: &[HintStep]) -> (closest_hints: HashMap<
    u32,
    Hint<'a>,
>)
    ensures
        resolves(index.names(), steps_view(hint_steps@), hint_views(closest_hints@)),
{
    broadcast use vstd::std_specs::hash::group_hash_axioms;

    let ghost names = index.names();
    let ghost ray = steps_view(hint_steps@);
    let mut closest_hints: HashMap<u32, Hint<'a>> = HashMap::new();
    proof {
        lemma_empty_ray(names, ray.take(0));
    }
    let mut done: usize = 0;
    while done < hint_steps.len()
        invariant
            done <= hint_steps.len(),
            names == index.names(),
            ray == steps_view(hint_steps@),
            resolves(names, ray.take(done as int), hint_views(closest_hints@)),
        decreases hint_steps.len() - done,
    {
        let step = &hint_steps[done];
        proof {
            lemma_enter_step(names, ray, hint_views(closest_hints@), done as int);
        }
        let mut ids: usize = 0;
        while ids < step.hint_ids.len()
            invariant
                done < hint_steps.len(),
                ids <= step.hint_ids.len(),
                *step == hint_steps@[done as int],
                names == index.names(),
                ray == steps_view(hint_steps@),
                resolves(names, walked(ray, done as int, ids as int), hint_views(closest_hints@)),
            decreases step.hint_ids.len() - ids,
        {
            let hint_id: u32 = step.hint_ids[ids];
            let ghost before = hint_views(closest_hints@);
            proof {
                lemma_walk_on(names, ray, before, done as int, ids as int);
            }
            match get_names(index, hint_id) {
                Some(names_of_hint) => {
                    let nearer: bool = match closest_hints.get(&hint_id) {
                        Some(existing) => step.dist < existing.dist,
                        None => true,
                    };
                    if nearer {
                        let hint = Hint {
                            names: names_of_hint,
                            x: step.x,
                            y: step.y,
                            dist: step.dist,
                        };
                        closest_hints.insert(hint_id, hint);
                        assert(hint_views(closest_hints@) =~= before.insert(
                            hint_id,
                            hint_of(names[hint_id], ray[done as int]),
                        ));
                    }
                },
                None => {},
            }
            ids += 1;
        }
        proof {
            lemma_leave_step(ray, done as int);
        }
        done += 1;
    }
    proof {
        assert(ray.take(done as int) =~= ray);
    }
    closest_hints
}

/// The steps stored for the cell `(x, y)` in `direction`: none for a
/// direction other than 0, 1, 2 or 3, for a cell without a table, and for
/// an absent slot.
pub fn get_steps<'a>(
    index: &'a HintIndex,
    x: i32,
    y: i32,
    direction: i8,
) -> (hint_steps: &'a [HintStep])
    ensures
        steps_view(hint_steps@) == index.steps(x as int, y as int, direction as int),
{
    let nothing: &'a [HintStep] = &[];
    if direction >= 4 || direction < 0 {
        return nothing;
    }
    match get_hints(index, x, y) {
        Some(table) => match &table[direction as usize] {
            Some(hint_steps) => hint_steps.as_slice(),
            None => nothing,
        },
        None => nothing,
    }
}

/// The closest hints along the ray that leaves the cell `(x, y)` in
/// `direction`, by hint identifier. A direction other than 0, 1, 2 or 3, a
/// cell without a table and an absent slot all give the empty map.
pub fn get_hints_for_direction<'a>(
    index: &'a HintIndex,
    x: i32,
    y: i32,
    direction: i8,
) -> (closest_hints: HashMap<u32, Hint<'a>>)
    ensures
        resolves(
            index.names(),
            index.steps(x as int, y as int, direction as int),
            hint_views(closest_hints@),
        ),
        !(0 <= direction < 4) ==> closest_hints@ == Map::<u32, Hint<'a>>::empty(),
        !index.hints().contains_key(coordinate_key(x as int, y as int)) ==> closest_hints@
            == Map::<u32, Hint<'a>>::empty(),
        index.steps(x as int, y as int, direction as int).len() == 0 ==> closest_hints@
            == Map::<u32, Hint<'a>>::empty(),
{
    let hint_steps = get_steps(index, x, y, direction);
    let closest_hints = resolve_steps(index, hint_steps);
    proof {
        let steps = index.steps(x as int, y as int, direction as int);
        if steps.len() == 0 {
            assert forall|id: u32| !closest_hints@.contains_key(id) by {
                assert(hint_views(closest_hints@).contains_key(id) == closest_hints@.contains_key(
                    id,
                ));
            }
        }
    }
    closest_hints
}

/// Asking the same index the same question twice gives the same answer:
/// whatever two calls of [`get_hints_for_direction`] with one cell and one
/// direction return, the entries have the same identifiers and the same
/// values.
pub proof fn lemma_same_question_same_answer<'a>(
    index: HintIndex,
    x: i32,
    y: i32,
    direction: i8,
    first: Map<u32, Hint<'a>>,
    second: Map<u32, Hint<'a>>,
)
    requires
        resolves(
            index.names(),
            index.steps(x as int, y as int, direction as int),
            hint_views(first),
        ),
        resolves(
            index.names(),
            index.steps(x as int, y as int, direction as int),
            hint_views(second),
        ),
    ensures
        first.dom() == second.dom(),
        hint_views(first) == hint_views(second),
{
    lemma_answer_is_unique(
        index.names(),
        index.steps(x as int, y as int, direction as int),
        hint_views(first),
        hint_views(second),
    );
    assert forall|id: u32| first.dom().contains(id) == second.dom().contains(id) by {
        assert(hint_views(first).contains_key(id) == first.contains_key(id));
    }
}

/// The identifiers of a ray in the order in which a walk meets them.
pub open spec fn ids_met(steps: Seq<HintStepView>) -> Seq<u32>
    decreases steps.len(),
{
    if steps.len() == 0 {
        Seq::empty()
    } else {
        ids_met(steps.drop_last()) + steps.last().hint_ids
    }
}

/// Of `ids`, those without a name record, in the same order.
pub open spec fn unnamed_among(names: Map<u32, HintNameView>, ids: Seq<u32>) -> Seq<u32> {
    ids.filter(|id: u32| !names.contains_key(id))
}

/// One more identifier met: it is passed over exactly where it has no name
/// record.
proof fn lemma_unnamed_one_more(names: Map<u32, HintNameView>, ids: Seq<u32>, id: u32)
    ensures
        unnamed_among(names, ids.push(id)) == if names.contains_key(id) {
            unnamed_among(names, ids)
        } else {
            unnamed_among(names, ids).push(id)
        },
{
    reveal(Seq::filter);
    assert(ids.push(id).drop_last() =~= ids);
}

/// The identifiers that a walk of the steps passes over for want of a
/// name record, one for each time it meets one, in the order of the walk.
pub fn unnamed_in_steps(index: &HintIndex, hint_steps: &[HintStep]) -> (unnamed: Vec<u32>)
    ensures
        unnamed@ == unnamed_among(index.names(), ids_met(steps_view(hint_steps@))),
{
    let ghost names = index.names();
    let ghost ray = steps_view(hint_steps@);
    let mut unnamed: Vec<u32> = Vec::new();
    proof {
        reveal(Seq::filter);
    }
    let mut done: usize = 0;
    while done < hint_steps.len()
        invariant
            done <= hint_steps.len(),
            names == index.names(),
            ray == steps_view(hint_steps@),
            unnamed@ == unnamed_among(names, ids_met(ray.take(done as int))),
        decreases hint_steps.len() - done,
    {
        let step = &hint_steps[done];
        let ghost met = ids_met(ray.take(done as int));
        let mut ids: usize = 0;
        while ids < step.hint_ids.len()
            invariant
                done < hint_steps.len(),
                ids <= step.hint_ids.len(),
                *step == hint_steps@[done as int],
                names == index.names(),
                ray == steps_view(hint_steps@),
                met == ids_met(ray.take(done as int)),
                unnamed@ == unnamed_among(names, met + step.hint_ids@.take(ids as int)),
            decreases step.hint_ids.len() - ids,
        {
            let hint_id: u32 = step.hint_ids[ids];
            proof {
                lemma_unnamed_one_more(names, met + step.hint_ids@.take(ids as int), hint_id);
                assert(met + step.hint_ids@.take(ids + 1) =~= (met + step.hint_ids@.take(
                    ids as int,
                )).push(hint_id));
            }
            if get_names(index, hint_id).is_none() {
                unnamed.push(hint_id);
            }
            ids += 1;
        }
        proof {
            assert(step.hint_ids@.take(ids as int) =~= step.hint_ids@);
            assert(ray.take(done + 1).drop_last() =~= ray.take(done as int));
        }
        done += 1;
    }
    assert(ray.take(done as int) =~= ray);
    unnamed
}

/// The identifiers that [`get_hints_for_direction`] passes over for want
/// of a name record, one for each time the walk meets one.
pub fn get_unnamed_for_direction(index: &HintIndex, x: i32, y: i32, direction: i8) -> (unnamed: Vec<
    u32,
>)
    ensures
        unnamed@ == unnamed_among(
            index.names(),
            ids_met(index.steps(x as int, y as int, direction as int)),
        ),
{
    unnamed_in_steps(index, get_steps(index, x, y, direction))
}

} // verus!
