//! The search for a circuit from a source to a target, with the replay that
//! checks what the search found.

use vstd::prelude::*;
use crate::a_star::graph::{replay_gives, spec_replay, GraphModel};
use crate::a_star::{a_star, spec_a_star, AStarValue};
use crate::bfs::{mitm_bfs, spec_ids_below, spec_mitm_bfs};
use crate::bfs_sound::spec_gates_of;
use crate::cx::CX;
use crate::cx_circuit::{CXCircuit, CXCircuit16};
use crate::stab_state::StabiliserState;

verus! {

/// The search algorithm to use.
#[derive(Clone, Copy, Debug, PartialEq, Eq, Structural)]
pub enum SearchAlgorithm {
    /// Breadth-first search from both ends, with the search beyond the stored
    /// layers. Hungry for memory.
    MITM,
    /// Best-first search on circuits.
    Astar,
    /// Best-first search on stabiliser states: source and target are X
    /// stabiliser states.
    AstarStabiliser,
}

/// A circuit or a stabiliser state.
#[derive(Clone, Copy, Debug, PartialEq, Eq, Hash)]
pub enum CircuitOrStabiliser {
    Circuit(CXCircuit16),
    Stabiliser(StabiliserState<16>),
}

impl CircuitOrStabiliser {
    /// The circuit that the value holds.
    pub fn unwrap_circuit_ref(&self) -> (c: CXCircuit16)
        requires
            *self is Circuit,
        ensures
            *self == CircuitOrStabiliser::Circuit(c),
    {
        match self {
            CircuitOrStabiliser::Circuit(circuit) => *circuit,
            CircuitOrStabiliser::Stabiliser(_) => {
                assert(false);
                CXCircuit16::new()
            },
        }
    }

    /// The stabiliser state that the value holds.
    pub fn unwrap_stabiliser_ref(&self) -> (s: StabiliserState<16>)
        requires
            *self is Stabiliser,
        ensures
            *self == CircuitOrStabiliser::Stabiliser(s),
    {
        match self {
            CircuitOrStabiliser::Stabiliser(stabiliser) => *stabiliser,
            CircuitOrStabiliser::Circuit(_) => {
                assert(false);
                StabiliserState::from_rows([0u16; 16])
            },
        }
    }

    /// The value after `CX(ctrl, tgt)`.
    pub open spec fn spec_cx(self, ctrl: u8, tgt: u8) -> CircuitOrStabiliser {
        match self {
            CircuitOrStabiliser::Circuit(c) => CircuitOrStabiliser::Circuit(AStarValue::spec_cx(&c, ctrl, tgt)),
            CircuitOrStabiliser::Stabiliser(s) => CircuitOrStabiliser::Stabiliser(AStarValue::spec_cx(&s, ctrl, tgt)),
        }
    }

    /// What holds of a value that a search starts from: a circuit is invertible.
    pub open spec fn spec_valid(self) -> bool {
        match self {
            CircuitOrStabiliser::Circuit(c) => c.spec_invertible(),
            CircuitOrStabiliser::Stabiliser(_) => true,
        }
    }

    /// The value after the gates of `solution`, one after the other.
    pub open spec fn spec_replay(self, solution: Seq<CX>) -> CircuitOrStabiliser
        decreases solution.len(),
    {
        if solution.len() == 0 {
            self
        } else {
            self.spec_replay(solution.drop_last()).spec_cx(solution.last().ctrl, solution.last().tgt)
        }
    }
}

/// Replaying a solution on a circuit or a stabiliser state replays it on what is held.
pub proof fn lemma_replay_circuit(c: CXCircuit16, solution: Seq<CX>)
    ensures
        CircuitOrStabiliser::Circuit(c).spec_replay(solution) == CircuitOrStabiliser::Circuit(
            spec_replay(c, solution),
        ),
    decreases solution.len(),
{
    if solution.len() > 0 {
        lemma_replay_circuit(c, solution.drop_last());
    }
}

/// Replaying a solution on a circuit or a stabiliser state replays it on what is held.
pub proof fn lemma_replay_stabiliser(s: StabiliserState<16>, solution: Seq<CX>)
    ensures
        CircuitOrStabiliser::Stabiliser(s).spec_replay(solution) == CircuitOrStabiliser::Stabiliser(
            spec_replay(s, solution),
        ),
    decreases solution.len(),
{
    if solution.len() > 0 {
        lemma_replay_stabiliser(s, solution.drop_last());
    }
}

/// Replays `solution` from `source` and tells whether it ends at `target`.
pub fn check_solution_correctness<V: AStarValue>(solution: &Vec<CX>, source: V, target: &V) -> (correct: bool)
    requires
        source.spec_valid(),
        forall|k: int| 0 <= k < solution@.len() ==> GraphModel::<V>::gate_ok(#[trigger] solution@[k]),
    ensures
        correct == (spec_replay(source, solution@) == *target),
{
    replay_gives(&source, solution, target)
}

/// How a search ended.
#[derive(Clone, Debug, PartialEq, Eq)]
pub enum Outcome {
    /// A circuit was found, and its replay from the source ends at the target.
    Solution(Vec<CX>),
    /// A circuit was found, but its replay from the source does not end at the target.
    Incorrect(Vec<CX>),
    /// No circuit was found within the depth given.
    NoSolution,
}

/// How a search ended, with the circuit as a sequence of gates.
pub enum OutcomeModel {
    Solution(Seq<CX>),
    Incorrect(Seq<CX>),
    NoSolution,
}

impl View for Outcome {
    type V = OutcomeModel;

    open spec fn view(&self) -> OutcomeModel {
        match self {
            Outcome::Solution(sol) => OutcomeModel::Solution(sol@),
            Outcome::Incorrect(sol) => OutcomeModel::Incorrect(sol@),
            Outcome::NoSolution => OutcomeModel::NoSolution,
        }
    }
}

/// What is made of what a search found: a circuit whose replay from `source`
/// ends at `target` is a solution, another circuit is incorrect.
pub open spec fn spec_checked(found: Option<Seq<CX>>, source: CircuitOrStabiliser, target: CircuitOrStabiliser) -> OutcomeModel {
    match found {
        Some(sol) => if source.spec_replay(sol) == target {
            OutcomeModel::Solution(sol)
        } else {
            OutcomeModel::Incorrect(sol)
        },
        None => OutcomeModel::NoSolution,
    }
}

/// The gates that the pairs of control and target stand for.
pub open spec fn spec_gates_of_pairs(pairs: Seq<(usize, usize)>) -> Seq<CX> {
    Seq::new(pairs.len(), |k: int| CX { ctrl: pairs[k].0 as u8, tgt: pairs[k].1 as u8 })
}

/// The matrices by which the searches from both ends move: for each pair the
/// transpose of the circuit of its one gate.
pub open spec fn spec_moves_of_pairs(pairs: Seq<(usize, usize)>) -> Seq<CXCircuit16> {
    Seq::new(
        pairs.len(),
        |k: int| CXCircuit16::spec_new().spec_add_cx(pairs[k].0 as int, pairs[k].1 as int).spec_transpose(),
    )
}

/// What the search with `algo` finds: the gates of the moves of the search from
/// both ends, or the way that the best-first search found.
pub open spec fn spec_found_by(
    algo: SearchAlgorithm,
    source: CircuitOrStabiliser,
    target: CircuitOrStabiliser,
    pairs: Seq<(usize, usize)>,
    max_depth: usize,
) -> Option<Seq<CX>> {
    match algo {
        SearchAlgorithm::MITM => match spec_mitm_bfs(
            target->Circuit_0,
            spec_moves_of_pairs(pairs),
            max_depth as nat,
            true,
        ) {
            Ok(Some(ids)) => Some(spec_gates_of(ids, pairs)),
            _ => None,
        },
        SearchAlgorithm::Astar => spec_a_star(
            source->Circuit_0,
            target->Circuit_0,
            spec_gates_of_pairs(pairs),
            Some(max_depth),
        ),
        SearchAlgorithm::AstarStabiliser => spec_a_star(
            source->Stabiliser_0,
            target->Stabiliser_0,
            spec_gates_of_pairs(pairs),
            Some(max_depth),
        ),
    }
}

/// Whether `pair` names two different qubits below 16.
pub open spec fn spec_valid_pair(pair: (usize, usize)) -> bool {
    pair.0 < 16 && pair.1 < 16 && pair.0 != pair.1
}

/// The gates that the pairs of control and target stand for.
pub fn gates_of_pairs(pairs: &Vec<(usize, usize)>) -> (gates: Vec<CX>)
    requires
        forall|k: int| 0 <= k < pairs@.len() ==> spec_valid_pair(#[trigger] pairs@[k]),
    ensures
        gates@ == spec_gates_of_pairs(pairs@),
        forall|k: int| 0 <= k < gates@.len() ==> (#[trigger] gates@[k]).wf(),
{
    let mut gates: Vec<CX> = Vec::new();
    let mut k: usize = 0;
    while k < pairs.len()
        invariant
            k <= pairs@.len(),
            gates@.len() == k,
            forall|k: int| 0 <= k < pairs@.len() ==> spec_valid_pair(#[trigger] pairs@[k]),
            forall|j: int|
                0 <= j < k ==> (#[trigger] gates@[j]) == (CX { ctrl: pairs@[j].0 as u8, tgt: pairs@[j].1 as u8 })
                    && gates@[j].wf(),
        decreases pairs@.len() - k,
    {
        assert(spec_valid_pair(pairs@[k as int]));
        gates.push(CX::from(pairs[k]));
        k = k + 1;
    }
    assert(gates@ =~= spec_gates_of_pairs(pairs@));
    gates
}

/// The matrices by which the searches from both ends move: for each pair the
/// transpose of the circuit of its one gate.
pub fn moves_of_pairs(pairs: &Vec<(usize, usize)>) -> (moves: Vec<CXCircuit16>)
    requires
        forall|k: int| 0 <= k < pairs@.len() ==> spec_valid_pair(#[trigger] pairs@[k]),
    ensures
        moves@ == spec_moves_of_pairs(pairs@),
{
    let mut moves: Vec<CXCircuit16> = Vec::new();
    let mut k: usize = 0;
    while k < pairs.len()
        invariant
            k <= pairs@.len(),
            moves@.len() == k,
            forall|k: int| 0 <= k < pairs@.len() ==> spec_valid_pair(#[trigger] pairs@[k]),
            forall|j: int|
                0 <= j < k ==> (#[trigger] moves@[j]) == CXCircuit16::spec_new().spec_add_cx(
                    pairs@[j].0 as int,
                    pairs@[j].1 as int,
                ).spec_transpose(),
        decreases pairs@.len() - k,
    {
        assert(spec_valid_pair(pairs@[k as int]));
        let mut circuit = CXCircuit16::new();
        proof {
            circuit.lemma_invertible(pairs@[k as int].0 as int, pairs@[k as int].1 as int);
        }
        circuit.add_cx(pairs[k].0, pairs[k].1);
        moves.push(circuit.transpose());
        k = k + 1;
    }
    assert(moves@ =~= spec_moves_of_pairs(pairs@));
    moves
}

/// The gates that the positions `ids` in `pairs` stand for; nothing where a
/// position is not one of `pairs`.
pub fn gates_of_moves(ids: &Vec<usize>, pairs: &Vec<(usize, usize)>) -> (gates: Option<Vec<CX>>)
    requires
        forall|k: int| 0 <= k < pairs@.len() ==> spec_valid_pair(#[trigger] pairs@[k]),
    ensures
        gates is Some <==> spec_ids_below(ids@, pairs@.len() as int),
        gates matches Some(list) ==> list@ == spec_gates_of(ids@, pairs@) && forall|k: int|
            0 <= k < list@.len() ==> (#[trigger] list@[k]).wf(),
{
    let mut gates: Vec<CX> = Vec::new();
    let mut k: usize = 0;
    while k < ids.len()
        invariant
            k <= ids@.len(),
            gates@.len() == k,
            forall|k: int| 0 <= k < pairs@.len() ==> spec_valid_pair(#[trigger] pairs@[k]),
            forall|j: int| 0 <= j < k ==> (#[trigger] ids@[j]) < pairs@.len(),
            forall|j: int|
                0 <= j < k ==> (#[trigger] gates@[j]) == (CX {
                    ctrl: pairs@[ids@[j] as int].0 as u8,
                    tgt: pairs@[ids@[j] as int].1 as u8,
                }) && gates@[j].wf(),
        decreases ids@.len() - k,
    {
        let id = ids[k];
        if id >= pairs.len() {
            return None;
        }
        assert(spec_valid_pair(pairs@[id as int]));
        gates.push(CX::from(pairs[id]));
        k = k + 1;
    }
    assert(gates@ =~= spec_gates_of(ids@, pairs@));
    Some(gates)
}

/// Searches a circuit of the gates `move_inds` that takes `source` to `target`,
/// with the algorithm `algo`, and replays what was found.
///
/// The search from both ends starts at the identity circuit: with another
/// source what it finds need not pass the replay. What the best-first search
/// finds, and what the search from both ends finds from the identity, always
/// passes it.
pub fn search(
    algo: SearchAlgorithm,
    source: &CircuitOrStabiliser,
    target: &CircuitOrStabiliser,
    move_inds: &Vec<(usize, usize)>,
    max_depth: usize,
) -> (outcome: Outcome)
    requires
        source.spec_valid(),
        forall|k: int| 0 <= k < move_inds@.len() ==> spec_valid_pair(#[trigger] move_inds@[k]),
        algo == SearchAlgorithm::AstarStabiliser ==> *source is Stabiliser && *target is Stabiliser,
        algo != SearchAlgorithm::AstarStabiliser ==> *source is Circuit && *target is Circuit,
    ensures
        outcome@ == spec_checked(spec_found_by(algo, *source, *target, move_inds@, max_depth), *source, *target),
        outcome matches Outcome::Solution(sol) ==> source.spec_replay(sol@) == *target,
        outcome matches Outcome::Solution(sol) ==> forall|k: int| 0 <= k < sol@.len() ==> (#[trigger] sol@[k]).wf(),
        algo != SearchAlgorithm::MITM ==> !(outcome is Incorrect),
        algo == SearchAlgorithm::MITM && *source == CircuitOrStabiliser::Circuit(CXCircuit16::spec_new()) ==> !(outcome
            is Incorrect),
{
    let n_pairs = move_inds.len();
    proof {
        if algo == SearchAlgorithm::MITM && *source == CircuitOrStabiliser::Circuit(CXCircuit16::spec_new()) {
            crate::bfs_sound::lemma_mitm_search_correct(target->Circuit_0, move_inds@, max_depth);
        }
    }
    match algo {
        SearchAlgorithm::MITM => {
            let source = source.unwrap_circuit_ref();
            let target = target.unwrap_circuit_ref();
            let moves = moves_of_pairs(move_inds);
            proof {
                crate::bfs_sound::lemma_gate_moves_undo(moves@, move_inds@);
            }
            let ids = match mitm_bfs(target, &moves, max_depth, true) {
                Ok(Some(ids)) => ids,
                Ok(None) => {
                    return Outcome::NoSolution;
                },
                Err(_) => {
                    // The moves are single gates, so the way back is never lost.
                    assert(false);
                    return Outcome::NoSolution;
                },
            };
            match gates_of_moves(&ids, move_inds) {
                Some(solution) => {
                    proof {
                        lemma_replay_circuit(source, solution@);
                    }
                    if check_solution_correctness(&solution, source, &target) {
                        Outcome::Solution(solution)
                    } else {
                        Outcome::Incorrect(solution)
                    }
                },
                None => Outcome::NoSolution,
            }
        },
        SearchAlgorithm::Astar => {
            let source = source.unwrap_circuit_ref();
            let target = target.unwrap_circuit_ref();
            let moves = gates_of_pairs(move_inds);
            let ghost allowed = moves@;
            match a_star(source, &target, moves, Some(max_depth)) {
                Some(solution) => {
                    proof {
                        lemma_replay_circuit(source, solution@);
                        assert forall|k: int| 0 <= k < solution@.len() implies GraphModel::<CXCircuit16>::gate_ok(
                            #[trigger] solution@[k],
                        ) by {
                            assert(allowed.contains(solution@[k]));
                        }
                    }
                    if check_solution_correctness(&solution, source, &target) {
                        Outcome::Solution(solution)
                    } else {
                        Outcome::Incorrect(solution)
                    }
                },
                None => Outcome::NoSolution,
            }
        },
        SearchAlgorithm::AstarStabiliser => {
            let source = source.unwrap_stabiliser_ref();
            let target = target.unwrap_stabiliser_ref();
            let moves = gates_of_pairs(move_inds);
            let ghost allowed = moves@;
            match a_star(source, &target, moves, Some(max_depth)) {
                Some(solution) => {
                    proof {
                        lemma_replay_stabiliser(source, solution@);
                        assert forall|k: int| 0 <= k < solution@.len() implies GraphModel::<
                            StabiliserState<16>,
                        >::gate_ok(#[trigger] solution@[k]) by {
                            assert(allowed.contains(solution@[k]));
                        }
                    }
                    if check_solution_correctness(&solution, source, &target) {
                        Outcome::Solution(solution)
                    } else {
                        Outcome::Incorrect(solution)
                    }
                },
                None => Outcome::NoSolution,
            }
        },
    }
}

} // verus!
