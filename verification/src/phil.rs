//! `phil`: a binary response-length target for each raw phi response class.
use vstd::prelude::*;

verus! {

/// Responses with at least this many characters are classified as long.
pub const LONG_RESPONSE_MIN_CHARACTERS: usize = 11;

/// The target phil learns for one response text: 1 for a long response, 0 for a
/// short one, counted in Unicode characters.
pub open spec fn length_class(text: Seq<char>) -> usize {
    if text.len() >= LONG_RESPONSE_MIN_CHARACTERS {
        1
    } else {
        0
    }
}

/// Stored class targets are accepted only when there is at least one and every
/// one is 0 or 1.
pub open spec fn valid_targets(targets: Seq<usize>) -> bool {
    targets.len() > 0 && forall|i: int| 0 <= i < targets.len() ==> #[trigger] targets[i] <= 1
}

pub open spec fn classification_spec(output: usize) -> Seq<char> {
    if output == 1 {
        "long"@
    } else {
        "short"@
    }
}

/// phi's raw output: the index of the predicted response class and its score.
/// phil reads only the index; the score is handed through unchanged.
#[derive(Clone, Copy, Debug)]
pub struct PhiOutput<S> {
    pub response_index: usize,
    pub score: S,
}

/// The result of applying phil to one phi output.
#[derive(Clone, Copy, Debug)]
pub struct PhilTransform<S> {
    pub response_index: usize,
    pub phi_score: S,
    pub output: usize,
    pub classification: &'static str,
}

/// Learns a binary response-length target for each raw phi response class.
#[derive(Debug)]
pub struct Phil {
    class_targets: Vec<usize>,
}

impl View for Phil {
    type V = Seq<usize>;

    closed spec fn view(&self) -> Seq<usize> {
        self.class_targets@
    }
}

impl Phil {
    /// One target per response class, in class order; `None` when there are no
    /// classes.
    pub fn train(response_texts: &[String]) -> (r: Option<Self>)
        ensures
            response_texts@.len() == 0 <==> r is None,
            r matches Some(phil) ==> phil@.len() == response_texts@.len() && forall|i: int|
                0 <= i < phil@.len() ==> #[trigger] phil@[i] == length_class(
                    response_texts@[i]@,
                ),
    {
        if response_texts.len() == 0 {
            return None;
        }
        let mut class_targets: Vec<usize> = Vec::new();
        let mut i: usize = 0;
        while i < response_texts.len()
            invariant
                i <= response_texts@.len(),
                class_targets@.len() == i,
                forall|k: int|
                    0 <= k < i ==> #[trigger] class_targets@[k] == length_class(
                        response_texts@[k]@,
                    ),
            decreases response_texts@.len() - i,
        {
            let count = response_texts[i].as_str().unicode_len();
            if count >= LONG_RESPONSE_MIN_CHARACTERS {
                class_targets.push(1);
            } else {
                class_targets.push(0);
            }
            i = i + 1;
        }
        Some(Phil { class_targets })
    }

    /// Rebuilds phil from stored targets; `None` unless they are valid.
    pub fn from_class_targets(class_targets: Vec<usize>) -> (r: Option<Self>)
        ensures
            r is Some <==> valid_targets(class_targets@),
            r matches Some(phil) ==> phil@ == class_targets@,
    {
        if class_targets.len() == 0 {
            return None;
        }
        let mut i: usize = 0;
        while i < class_targets.len()
            invariant
                i <= class_targets@.len(),
                forall|k: int| 0 <= k < i ==> #[trigger] class_targets@[k] <= 1,
            decreases class_targets@.len() - i,
        {
            if class_targets[i] > 1 {
                return None;
            }
            i = i + 1;
        }
        Some(Phil { class_targets })
    }

    /// The stored targets, in class order.
    pub fn class_targets(&self) -> (r: &[usize])
        ensures
            r@ == self@,
    {
        self.class_targets.as_slice()
    }

    /// Applies phil to phi's raw class output without inspecting any text;
    /// `None` when the class index is not one phil was trained on.
    pub fn apply<S>(&self, phi_output: PhiOutput<S>) -> (r: Option<PhilTransform<S>>)
        ensures
            phi_output.response_index < self@.len() <==> r is Some,
            r matches Some(t) ==> {
                &&& t.response_index == phi_output.response_index
                &&& t.phi_score == phi_output.score
                &&& t.output == self@[phi_output.response_index as int]
                &&& t.classification@ == classification_spec(t.output)
            },
    {
        if phi_output.response_index >= self.class_targets.len() {
            return None;
        }
        let output = self.class_targets[phi_output.response_index];
        let classification = if output == 1 {
            "long"
        } else {
            "short"
        };
        Some(
            PhilTransform {
                response_index: phi_output.response_index,
                phi_score: phi_output.score,
                output,
                classification,
            },
        )
    }
}

/// What phil learns can be stored and loaded back: for any non-empty list of
/// response texts, the targets learned are accepted by `from_class_targets`,
/// which rebuilds the same function.
pub proof fn trained_targets_reload(texts: Seq<Seq<char>>)
    requires
        texts.len() > 0,
    ensures
        valid_targets(Seq::new(texts.len(), |i: int| length_class(texts[i]))),
{
    let targets = Seq::new(texts.len(), |i: int| length_class(texts[i]));
    assert forall|i: int| 0 <= i < targets.len() implies #[trigger] targets[i] <= 1 by {}
}

} // verus!
