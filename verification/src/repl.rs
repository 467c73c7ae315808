//! Read, evaluate, print.

use crate::env::{lemma_extends_refl, Environment, Store};
use crate::eval::{eval, eval_spec, evolved};
use crate::reader::{
    parse_message_spec, parse_view, read_spec, read_str, tokens_spec, ParseErrorKind, ParseResult,
};
use crate::types::{lemma_closed_under_grows, message_spec, pr_str, pr_str_spec, LispType, Value};
use vstd::prelude::*;

verus! {

/// What a text reads as.
pub open spec fn read_result(input: Seq<char>) -> Result<Value, ParseErrorKind> {
    match tokens_spec(input) {
        Ok(tokens) => read_spec(tokens),
        Err(kind) => Err(kind),
    }
}

/// Reads the first form of `input`.
pub fn read(input: &str) -> (r: ParseResult)
    ensures
        parse_view(r) == read_result(input@),
        r matches Ok(v) ==> v@.closed_under(0),
{
    read_str(input)
}

/// The text of a result, strings by their content.
pub fn print(value: LispType) -> (text: String)
    ensures
        text@ == pr_str_spec(value@, false),
{
    pr_str(&value, false)
}

/// Reads `input`, evaluates what it read in frame `env`, and returns the text of
/// the result, or of the error after `error: `.
pub fn rep(input: &str, env: Environment, store: &mut Store, fuel: u64) -> (text: String)
    requires
        old(store).wf(),
        old(store)@.has(env@),
    ensures
        evolved(old(store), final(store)),
        match read_result(input@) {
            Ok(ast) => {
                let o = eval_spec(ast, env@, old(store)@, fuel as nat);
                &&& final(store)@ == o.store
                &&& text@ == match o.result {
                    Ok(v) => pr_str_spec(v, false),
                    Err(f) => "error: "@ + message_spec(f),
                }
            },
            Err(kind) => {
                &&& final(store)@ == old(store)@
                &&& text@ == "error: "@ + parse_message_spec(kind)
            },
        },
{
    proof {
        lemma_extends_refl(store@);
    }
    match read(input) {
        Err(err) => {
            let mut text = "error: ".to_owned();
            text.append(err.message().as_str());
            text
        },
        Ok(ast) => {
            proof {
                lemma_closed_under_grows(ast@, 0, store@.frames.len() as int);
            }
            match eval(&ast, env, store, fuel) {
                Err(err) => {
                    let mut text = "error: ".to_owned();
                    text.append(err.message().as_str());
                    text
                },
                Ok(value) => print(value),
            }
        },
    }
}

} // verus!
