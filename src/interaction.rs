//! Dragging a node with the pointer, and the integration step that leaves a
//! dragged node to the pointer.
use vstd::prelude::*;

use crate::graph::NodeId;
use crate::positions::{NodePositions, keys_of};

verus! {

/// The node being dragged and the offset from the pointer to its position.
pub struct NodeDrag<O> {
    pub node_id: NodeId,
    pub offset: O,
}

/// The node that a press grabs: the first slot whose hit test succeeded,
/// with the offset that the hit test gave. `hits[i]` is the hit test of the
/// entry in slot `i`: `Some(offset)` where the pointer lies within the node.
/// Where several nodes are hit, the one stored first wins.
pub fn pick_node<V, O: Copy>(positions: &NodePositions<V>, hits: &Vec<Option<O>>) -> (r: Option<
    NodeDrag<O>,
>)
    requires
        hits@.len() == positions@.len(),
    ensures
        r.is_none() ==> forall|i: int| 0 <= i < hits@.len() ==> (#[trigger] hits@[i]).is_none(),
        r.is_some() ==> exists|i: int|
            0 <= i < hits@.len() && hits@[i] == Some(r.unwrap().offset) && positions.keys()[i]
                == r.unwrap().node_id && forall|k: int| 0 <= k < i ==> (#[trigger] hits@[k]).is_none(),
{
    let mut i: usize = 0;
    while i < hits.len()
        invariant
            hits@.len() == positions@.len(),
            i <= hits@.len(),
            forall|k: int| 0 <= k < i ==> (#[trigger] hits@[k]).is_none(),
        decreases hits@.len() - i,
    {
        if let Some(offset) = hits[i] {
            let node_id = positions.entry(i).0;
            proof {
                assert(keys_of(positions@)[i as int] == node_id);
                let w = i as int;
                assert(0 <= w < hits@.len() && hits@[w] == Some(offset) && positions.keys()[w] == node_id
                    && forall|k: int| 0 <= k < w ==> (#[trigger] hits@[k]).is_none());
            }
            return Some(NodeDrag { node_id, offset });
        }
        i = i + 1;
    }
    None
}

/// The drag state after a frame of pointer input: a press replaces it with
/// what the press grabbed; releasing the button ends it.
pub open spec fn drag_after<O>(
    current: Option<NodeDrag<O>>,
    pressed: bool,
    held: bool,
    picked: Option<NodeDrag<O>>,
) -> Option<NodeDrag<O>> {
    if !held {
        None
    } else if pressed {
        picked
    } else {
        current
    }
}

/// The drag state after a frame of pointer input (see `drag_after`).
pub fn next_drag<O>(
    current: Option<NodeDrag<O>>,
    pressed: bool,
    held: bool,
    picked: Option<NodeDrag<O>>,
) -> (r: Option<NodeDrag<O>>)
    ensures
        r == drag_after(current, pressed, held, picked),
{
    if !held {
        None
    } else if pressed {
        picked
    } else {
        current
    }
}

/// The id of the dragged node, if any.
pub open spec fn dragged_id<O>(drag: Option<NodeDrag<O>>) -> Option<NodeId> {
    match drag {
        Some(d) => Some(d.node_id),
        None => None,
    }
}

/// `after` is `before` advanced by one integration step: every entry keeps
/// its id; the entry of `dragged` keeps its value; every other value `v`
/// becomes a result of `step(&v)`.
pub open spec fn integrates<V, F: Fn(&V) -> V>(
    before: Seq<(NodeId, V)>,
    after: Seq<(NodeId, V)>,
    dragged: Option<NodeId>,
    step: F,
) -> bool {
    &&& after.len() == before.len()
    &&& forall|i: int|
        0 <= i < before.len() ==> {
            &&& (#[trigger] after[i]).0 == before[i].0
            &&& if dragged == Some(before[i].0) {
                after[i].1 == before[i].1
            } else {
                step.ensures((&before[i].1,), after[i].1)
            }
        }
}

/// One integration step (see `integrates`). `step` adds a node's force to
/// its position; the dragged node follows the pointer instead.
pub fn integrate<V, F: Fn(&V) -> V>(positions: &mut NodePositions<V>, dragged: Option<NodeId>, step: F)
    requires
        forall|v: &V| step.requires((v,)),
    ensures
        integrates(old(positions)@, final(positions)@, dragged, step),
        final(positions).keys() == old(positions).keys(),
{
    let ghost orig = positions@;
    let mut i: usize = 0;
    while i < positions.len()
        invariant
            forall|v: &V| step.requires((v,)),
            positions@.len() == orig.len(),
            i <= orig.len(),
            forall|k: int| i <= k < orig.len() ==> #[trigger] positions@[k] == orig[k],
            forall|k: int|
                0 <= k < i ==> {
                    &&& (#[trigger] positions@[k]).0 == orig[k].0
                    &&& if dragged == Some(orig[k].0) {
                        positions@[k].1 == orig[k].1
                    } else {
                        step.ensures((&orig[k].1,), positions@[k].1)
                    }
                },
        decreases orig.len() - i,
    {
        let id = positions.entry(i).0;
        let skip = match dragged {
            Some(d) => d == id,
            None => false,
        };
        if !skip {
            let next = step(&positions.entry(i).1);
            positions.set_value(i, next);
        }
        i = i + 1;
    }
    assert(positions.keys() =~= keys_of(orig));
}

/// While a node is dragged, integration steps leave its value alone: over
/// any run of steps with `id` dragged, each entry of `id` keeps the value it
/// had at the start.
pub proof fn lemma_drag_override<V, F: Fn(&V) -> V>(
    states: Seq<Seq<(NodeId, V)>>,
    id: NodeId,
    step: F,
    t: int,
    i: int,
)
    requires
        forall|s: int|
            0 <= s < states.len() - 1 ==> integrates(
                #[trigger] states[s],
                states[s + 1],
                Some(id),
                step,
            ),
        0 <= t < states.len(),
        0 <= i < states[0].len(),
        states[0][i].0 == id,
    ensures
        states[t].len() == states[0].len(),
        states[t][i] == states[0][i],
    decreases t,
{
    if t > 0 {
        lemma_drag_override(states, id, step, t - 1, i);
        assert(integrates(states[t - 1], states[t], Some(id), step));
    }
}

/// Releasing the button ends the drag, so the next integration step moves
/// every node, the formerly dragged one included.
pub proof fn lemma_release_resumes<V, O, F: Fn(&V) -> V>(
    current: Option<NodeDrag<O>>,
    pressed: bool,
    picked: Option<NodeDrag<O>>,
    before: Seq<(NodeId, V)>,
    after: Seq<(NodeId, V)>,
    step: F,
)
    requires
        integrates(before, after, dragged_id(drag_after(current, pressed, false, picked)), step),
    ensures
        forall|i: int| 0 <= i < before.len() ==> step.ensures((&before[i].1,), #[trigger] after[i].1),
{
    assert forall|i: int| 0 <= i < before.len() implies step.ensures(
        (&before[i].1,),
        #[trigger] after[i].1,
    ) by {
        assert(after[i].0 == before[i].0);
    }
}

} // verus!
