//! The chatbot's feature space: the sorted vocabulary of word features and
//! context names, the sorted response classes, and the word features a message
//! activates.
use vstd::prelude::*;
use crate::chatbot::{string_views, tokenize, tokenize_spec};
use crate::order::{insert_sorted, sorted_strict, str_equal};
use crate::text::{char_views, push_str, strip_prefix, strip_prefix_spec};

verus! {

/// The vocabulary name of a message word.
pub open spec fn word_feature(token: Seq<char>) -> Seq<char> {
    "msg:"@ + token
}

/// The word features of the messages, message by message, in token order.
pub open spec fn message_words(messages: Seq<Seq<char>>) -> Seq<Seq<char>>
    decreases messages.len(),
{
    if messages.len() == 0 {
        Seq::empty()
    } else {
        message_words(messages.drop_last()) + tokenize_spec(messages.last()).map_values(
            |t: Seq<char>| word_feature(t),
        )
    }
}

/// The vocabulary of a set of examples: the word features of their messages and
/// the names of their context features.
pub open spec fn vocabulary_set(messages: Seq<Seq<char>>, context_names: Seq<Seq<char>>) -> Set<Seq<char>> {
    (message_words(messages) + context_names).to_set()
}

/// Adds every item to a strictly increasing list of strings.
pub fn insert_all(set: &mut Vec<String>, items: &Vec<String>)
    requires
        sorted_strict(char_views(old(set)@)),
    ensures
        sorted_strict(char_views(final(set)@)),
        char_views(final(set)@).to_set() == char_views(old(set)@).to_set() + char_views(
            items@,
        ).to_set(),
{
    let ghost start = char_views(set@).to_set();
    let mut i: usize = 0;
    while i < items.len()
        invariant
            i <= items@.len(),
            start == char_views(old(set)@).to_set(),
            sorted_strict(char_views(set@)),
            char_views(set@).to_set() == start + char_views(items@.take(i as int)).to_set(),
        decreases items@.len() - i,
    {
        let mut item = String::new();
        push_str(&mut item, items[i].as_str());
        insert_sorted(set, item);
        proof {
            let before = char_views(items@.take(i as int));
            let after = char_views(items@.take(i + 1));
            assert(after == before.push(items@[i as int]@));
            assert(after.to_set() =~= before.to_set().insert(items@[i as int]@)) by {
                assert forall|x: Seq<char>| after.to_set().contains(x) implies before.to_set().insert(
                    items@[i as int]@,
                ).contains(x) by {
                    let k = choose|k: int| 0 <= k < after.len() && after[k] == x;
                    if k < before.len() {
                        assert(before[k] == x);
                    }
                }
                assert forall|x: Seq<char>| before.to_set().insert(items@[i as int]@).contains(
                    x,
                ) implies after.to_set().contains(x) by {
                    if x == items@[i as int]@ {
                        assert(after[i as int] == x);
                    } else {
                        let k = choose|k: int| 0 <= k < before.len() && before[k] == x;
                        assert(after[k] == x);
                    }
                }
            }
            assert(char_views(set@).to_set() =~= start + after.to_set());
        }
        i = i + 1;
    }
    proof {
        assert(items@.take(i as int) == items@);
    }
}

proof fn lemma_concat_to_set(a: Seq<Seq<char>>, b: Seq<Seq<char>>)
    ensures
        (a + b).to_set() == a.to_set() + b.to_set(),
{
    assert forall|x: Seq<char>| (a + b).to_set().contains(x) implies (a.to_set()
        + b.to_set()).contains(x) by {
        let k = choose|k: int| 0 <= k < (a + b).len() && (a + b)[k] == x;
        if k < a.len() {
            assert(a[k] == x);
        } else {
            assert(b[k - a.len()] == x);
        }
    }
    assert forall|x: Seq<char>| (a.to_set() + b.to_set()).contains(x) implies (a
        + b).to_set().contains(x) by {
        if a.to_set().contains(x) {
            let k = choose|k: int| 0 <= k < a.len() && a[k] == x;
            assert((a + b)[k] == x);
        } else {
            let k = choose|k: int| 0 <= k < b.len() && b[k] == x;
            assert((a + b)[a.len() + k] == x);
        }
    }
    assert((a + b).to_set() =~= a.to_set() + b.to_set());
}

/// The word features of one message's tokens.
fn word_features(message: &str) -> (r: Vec<String>)
    ensures
        char_views(r@) == tokenize_spec(message@).map_values(|t: Seq<char>| word_feature(t)),
{
    let tokens = tokenize(message);
    let mut out: Vec<String> = Vec::new();
    let mut j: usize = 0;
    while j < tokens.len()
        invariant
            j <= tokens@.len(),
            string_views(tokens@) == tokenize_spec(message@),
            char_views(out@) == string_views(tokens@).take(j as int).map_values(
                |t: Seq<char>| word_feature(t),
            ),
        decreases tokens@.len() - j,
    {
        let mut feature = String::new();
        push_str(&mut feature, "msg:");
        push_str(&mut feature, tokens[j].as_str());
        let ghost before = out@;
        out.push(feature);
        proof {
            assert(char_views(out@) == char_views(before).push(feature@));
            assert(string_views(tokens@).take(j + 1) == string_views(tokens@).take(j as int).push(
                tokens@[j as int]@,
            ));
            assert(char_views(out@) =~= string_views(tokens@).take(j + 1).map_values(
                |t: Seq<char>| word_feature(t),
            ));
        }
        j = j + 1;
    }
    proof {
        assert(string_views(tokens@).take(j as int) == string_views(tokens@));
    }
    out
}

/// The vocabulary of the examples, sorted and without repetitions: `msg:` and
/// each word of each message, and the name of each context feature.
pub fn build_vocabulary(messages: &Vec<String>, context_names: &Vec<String>) -> (r: Vec<String>)
    ensures
        sorted_strict(char_views(r@)),
        char_views(r@).to_set() == vocabulary_set(char_views(messages@), char_views(context_names@)),
{
    let mut set: Vec<String> = Vec::new();
    let ghost ms = char_views(messages@);
    let mut i: usize = 0;
    proof {
        assert(char_views(set@).to_set() =~= Set::<Seq<char>>::empty());
        assert(message_words(ms.take(0)).to_set() =~= Set::<Seq<char>>::empty());
    }
    while i < messages.len()
        invariant
            i <= messages@.len(),
            ms == char_views(messages@),
            sorted_strict(char_views(set@)),
            char_views(set@).to_set() == message_words(ms.take(i as int)).to_set(),
        decreases messages@.len() - i,
    {
        let features = word_features(messages[i].as_str());
        insert_all(&mut set, &features);
        proof {
            let t = ms.take(i + 1);
            assert(t.drop_last() == ms.take(i as int));
            assert(t.last() == messages@[i as int]@);
            lemma_concat_to_set(
                message_words(ms.take(i as int)),
                tokenize_spec(messages@[i as int]@).map_values(|t: Seq<char>| word_feature(t)),
            );
        }
        i = i + 1;
    }
    proof {
        assert(ms.take(i as int) == ms);
    }
    insert_all(&mut set, context_names);
    proof {
        lemma_concat_to_set(message_words(ms), char_views(context_names@));
    }
    set
}

/// The response classes of the examples: their responses, sorted and without
/// repetitions.
pub fn build_responses(responses: &Vec<String>) -> (r: Vec<String>)
    ensures
        sorted_strict(char_views(r@)),
        char_views(r@).to_set() == char_views(responses@).to_set(),
{
    let mut set: Vec<String> = Vec::new();
    proof {
        assert(char_views(set@).to_set() =~= Set::<Seq<char>>::empty());
    }
    insert_all(&mut set, responses);
    proof {
        assert(char_views(set@).to_set() =~= char_views(responses@).to_set());
    }
    set
}

/// The indices, in increasing order, of the vocabulary entries below `k` that are
/// word features of one of the tokens.
pub open spec fn active_indices(vocabulary: Seq<Seq<char>>, tokens: Seq<Seq<char>>, k: nat) -> Seq<usize>
    decreases k,
{
    if k == 0 {
        Seq::empty()
    } else {
        let i = (k - 1) as nat;
        active_indices(vocabulary, tokens, i) + match strip_prefix_spec(vocabulary[i as int], "msg:"@) {
            Some(word) => if tokens.contains(word) {
                seq![i as usize]
            } else {
                Seq::empty()
            },
            None => Seq::empty(),
        }
    }
}

fn contains_word(words: &Vec<String>, word: &str) -> (r: bool)
    ensures
        r == string_views(words@).contains(word@),
{
    let mut i: usize = 0;
    while i < words.len()
        invariant
            i <= words@.len(),
            forall|k: int| 0 <= k < i ==> words@[k]@ != word@,
        decreases words@.len() - i,
    {
        if str_equal(words[i].as_str(), word) {
            proof {
                assert(string_views(words@)[i as int] == word@);
            }
            return true;
        }
        i = i + 1;
    }
    proof {
        assert forall|k: int| 0 <= k < string_views(words@).len() implies string_views(
            words@,
        )[k] != word@ by {
            assert(string_views(words@)[k] == words@[k]@);
        }
    }
    false
}

/// The vocabulary indices of the message's word features, in increasing order.
pub fn message_feature_indices(vocabulary: &Vec<String>, message: &str) -> (r: Vec<usize>)
    ensures
        r@ == active_indices(
            char_views(vocabulary@),
            tokenize_spec(message@),
            vocabulary@.len() as nat,
        ),
{
    let tokens = tokenize(message);
    let ghost vs = char_views(vocabulary@);
    let mut out: Vec<usize> = Vec::new();
    let mut i: usize = 0;
    while i < vocabulary.len()
        invariant
            i <= vocabulary@.len(),
            vs == char_views(vocabulary@),
            string_views(tokens@) == tokenize_spec(message@),
            out@ == active_indices(vs, tokenize_spec(message@), i as nat),
        decreases vocabulary@.len() - i,
    {
        proof {
            assert(vs[i as int] == vocabulary@[i as int]@);
        }
        match strip_prefix(vocabulary[i].as_str(), "msg:") {
            Some(word) => {
                if contains_word(&tokens, word.as_str()) {
                    out.push(i);
                } else {
                    proof {
                        assert(out@ + Seq::<usize>::empty() == out@);
                    }
                }
            },
            None => {
                proof {
                    assert(out@ + Seq::<usize>::empty() == out@);
                }
            },
        }
        i = i + 1;
    }
    out
}

} // verus!
