//! The text of a streamed completion.

use vstd::prelude::*;
use vstd::string::*;

verus! {

/// The texts one after another, as one text.
pub open spec fn joined(texts: Seq<String>) -> Seq<char>
    decreases texts.len(),
{
    if texts.len() == 0 {
        Seq::empty()
    } else {
        joined(texts.drop_last()) + texts.last()@
    }
}

/// The text of a response: that of its choices, one after another.
pub fn completion_text(choices: &Vec<String>) -> (text: String)
    ensures
        text@ == joined(choices@),
{
    let mut text = String::new();
    let mut i: usize = 0;
    while i < choices.len()
        invariant
            i <= choices@.len(),
            text@ == joined(choices@.take(i as int)),
        decreases choices@.len() - i,
    {
        text.append(choices[i].as_str());
        assert(choices@.take(i + 1).drop_last() =~= choices@.take(i as int));
        i = i + 1;
    }
    assert(choices@.take(choices@.len() as int) =~= choices@);
    text
}

/// The next item of a stream of text, from what the stream of responses
/// gave: the text of a response, and the end of the stream at its end or at
/// a failure.
pub fn next_text<E>(response: Option<Result<Vec<String>, E>>) -> (item: Option<String>)
    ensures
        match response {
            Some(Ok(choices)) => item matches Some(text) && text@ == joined(choices@),
            _ => item is None,
        },
{
    match response {
        Some(Ok(choices)) => Some(completion_text(&choices)),
        _ => None,
    }
}

} // verus!
