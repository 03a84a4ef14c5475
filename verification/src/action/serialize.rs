use crate::idset::texts;
use crate::question::{marked, marked_options};
use vstd::prelude::*;

verus! {

/// The answer to a question with one choice as it is written out: the chosen option, or a
/// tilde where nothing is chosen or the choice is no option.
pub fn single_choice(options: &Vec<String>, answer: &Option<usize>) -> (r: String)
    ensures
        r@ == match *answer {
            Some(i) => if i < options@.len() {
                options@[i as int]@
            } else {
                "~"@
            },
            None => "~"@,
        },
{
    match answer {
        Some(i) => {
            if *i < options.len() {
                options[*i].clone()
            } else {
                String::from_str("~")
            }
        },
        None => String::from_str("~"),
    }
}

/// The answer to a question with several choices as it is written out: the marked
/// options, in their order.
pub fn multi_choice(options: &Vec<String>, answer: &Vec<bool>) -> (r: Vec<String>)
    ensures
        texts(r@) == marked(texts(options@), answer@, options@.len() as int),
{
    marked_options(options, answer)
}

} // verus!
