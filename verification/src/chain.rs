//! The decisions of the recursive prediction chain: a confident answer is fed
//! back as the next prompt until an answer is missing, below the confidence
//! threshold, repeats, lacks an exact remembered transition from the previous
//! answer, or the chain reaches its depth cap.
use vstd::prelude::*;
use crate::order::{insert_sorted, sorted_strict, str_equal};
use crate::text::{char_views, push_str};

verus! {

/// How many confident answers a chain accepts at most.
pub const MAX_RECURSIVE_RESULT_DEPTH: usize = 8;

/// What the model answered to the current prompt.
#[derive(Clone, Copy, Debug, PartialEq, Eq, Structural)]
pub enum ChainOutcome {
    NoPrediction,
    BelowThreshold,
    Confident,
}

/// What the chain does with that answer.
#[derive(Clone, Copy, Debug, PartialEq, Eq, Structural)]
pub enum ChainAction {
    /// Stop, with no answer below the threshold to report.
    Stop,
    /// Stop, reporting the answer that fell below the threshold.
    StopWithTerminal,
    /// Accept the answer and stop.
    AcceptAndStop,
    /// Accept the answer and feed it back as the next prompt.
    AcceptAndContinue,
}

/// The action for the answer at `depth` (the number of answers accepted so far).
/// `remembered` says whether an example maps the prompt to the answer; from the
/// second answer on, the prompt is the previous answer, and an answer without such
/// an example ends the chain unaccepted.
pub open spec fn chain_action_spec(
    seen: Set<Seq<char>>,
    depth: nat,
    outcome: ChainOutcome,
    response: Seq<char>,
    remembered: bool,
) -> ChainAction {
    match outcome {
        ChainOutcome::NoPrediction => ChainAction::Stop,
        ChainOutcome::BelowThreshold => ChainAction::StopWithTerminal,
        ChainOutcome::Confident => if depth > 0 && !remembered {
            ChainAction::Stop
        } else if seen.contains(response) || depth + 1 >= MAX_RECURSIVE_RESULT_DEPTH {
            ChainAction::AcceptAndStop
        } else {
            ChainAction::AcceptAndContinue
        },
    }
}

/// The responses seen after the answer: an accepted response joins them.
pub open spec fn chain_seen_spec(
    seen: Set<Seq<char>>,
    depth: nat,
    outcome: ChainOutcome,
    response: Seq<char>,
    remembered: bool,
) -> Set<Seq<char>> {
    if outcome == ChainOutcome::Confident && (depth == 0 || remembered) {
        seen.insert(response)
    } else {
        seen
    }
}

/// An example maps `previous` to `next` exactly.
pub open spec fn remembered_transition_spec(
    examples: Seq<(Seq<char>, Seq<char>)>,
    previous: Seq<char>,
    next: Seq<char>,
) -> bool {
    exists|i: int| 0 <= i < examples.len() && #[trigger] examples[i] == (previous, next)
}

pub open spec fn example_views(examples: Seq<(String, String)>) -> Seq<(Seq<char>, Seq<char>)> {
    examples.map_values(|e: (String, String)| (e.0@, e.1@))
}

/// Whether some example, given as (message, response), has `previous` as its
/// message and `next` as its response.
pub fn remembered_transition(examples: &Vec<(String, String)>, previous: &str, next: &str) -> (r: bool)
    ensures
        r == remembered_transition_spec(example_views(examples@), previous@, next@),
{
    let ghost views = example_views(examples@);
    let mut i: usize = 0;
    while i < examples.len()
        invariant
            i <= examples@.len(),
            views == example_views(examples@),
            forall|k: int| 0 <= k < i ==> #[trigger] views[k] != (previous@, next@),
        decreases examples@.len() - i,
    {
        let same_message = str_equal(examples[i].0.as_str(), previous);
        let same_response = str_equal(examples[i].1.as_str(), next);
        if same_message && same_response {
            proof {
                assert(views[i as int] == (previous@, next@));
            }
            return true;
        }
        i = i + 1;
    }
    false
}

/// Decides what the chain does with the answer at `depth`, and records an
/// accepted response among the responses seen. `remembered` says whether an
/// example maps the prompt to the answer (see `remembered_transition`).
pub fn chain_step(
    seen: &mut Vec<String>,
    depth: usize,
    outcome: ChainOutcome,
    response: &str,
    remembered: bool,
) -> (r: ChainAction)
    requires
        sorted_strict(char_views(old(seen)@)),
        depth < MAX_RECURSIVE_RESULT_DEPTH,
    ensures
        r == chain_action_spec(char_views(old(seen)@).to_set(), depth as nat, outcome, response@, remembered),
        sorted_strict(char_views(final(seen)@)),
        char_views(final(seen)@).to_set() == chain_seen_spec(
            char_views(old(seen)@).to_set(),
            depth as nat,
            outcome,
            response@,
            remembered,
        ),
{
    match outcome {
        ChainOutcome::NoPrediction => ChainAction::Stop,
        ChainOutcome::BelowThreshold => ChainAction::StopWithTerminal,
        ChainOutcome::Confident if depth > 0 && !remembered => ChainAction::Stop,
        ChainOutcome::Confident => {
            let mut item = String::new();
            push_str(&mut item, response);
            let ghost before = char_views(seen@);
            let added = insert_sorted(seen, item);
            proof {
                assert(before.to_set().contains(response@) <==> before.contains(response@));
            }
            if !added || depth + 1 >= MAX_RECURSIVE_RESULT_DEPTH {
                ChainAction::AcceptAndStop
            } else {
                ChainAction::AcceptAndContinue
            }
        },
    }
}

/// The chain's stop rules. A missing answer stops the chain, and an answer below the
/// threshold stops it reporting that answer, at every depth. A confident answer is
/// accepted exactly when it is the first or an example maps the prompt to it, and
/// only an accepted answer joins the answers seen. The chain goes on exactly when
/// the answer is accepted, new, and the next answer would still be below the depth
/// cap.
pub proof fn chain_stop_rules(
    seen: Set<Seq<char>>,
    depth: nat,
    outcome: ChainOutcome,
    response: Seq<char>,
    remembered: bool,
)
    ensures
        chain_action_spec(seen, depth, ChainOutcome::NoPrediction, response, remembered) == ChainAction::Stop,
        chain_action_spec(seen, depth, ChainOutcome::BelowThreshold, response, remembered)
            == ChainAction::StopWithTerminal,
        ({
            let a = chain_action_spec(seen, depth, outcome, response, remembered);
            let accepted = outcome == ChainOutcome::Confident && (depth == 0 || remembered);
            &&& (a == ChainAction::AcceptAndStop || a == ChainAction::AcceptAndContinue) <==> accepted
            &&& a == ChainAction::AcceptAndContinue <==> (accepted && !seen.contains(response) && depth + 1
                < MAX_RECURSIVE_RESULT_DEPTH)
            &&& chain_seen_spec(seen, depth, outcome, response, remembered) == if accepted {
                seen.insert(response)
            } else {
                seen
            }
        }),
{
}

} // verus!
