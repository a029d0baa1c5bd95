//! The rules of the save file: which envelope versions load, that a loaded
//! expedition must be consistent and still under way, and where a used-up
//! save is moved.
use vstd::prelude::*;
use vstd::string::StringExecFns;

use crate::check::validity_error;
use crate::game::{Game, Outcome};
use crate::text::owned;

verus! {

/// The envelope version that saves are written with.
pub const SAVE_VERSION: u32 = 4;

pub open spec fn too_old_message() -> Seq<char> {
    "Save from the three-floor prototype: the complex has grown. Start a new signal."@
}

pub open spec fn finished_message() -> Seq<char> {
    "That expedition is over. Start a new signal."@
}

/// Decides whether a save read from disk, with envelope `version` and
/// expedition `game`, may be played: only the current version loads, the
/// expedition must pass validation, and a finished expedition is refused.
pub fn accept_loaded(version: u32, game: Game) -> (r: Result<Game, String>)
    ensures
        version < SAVE_VERSION ==> (r matches Err(e) && e@ == too_old_message()),
        version > SAVE_VERSION ==> (r matches Err(e) && e@ == "Unsupported save version"@),
        version == SAVE_VERSION && validity_error(game@) is Some ==> (r matches Err(e) && Some(e@)
            == validity_error(game@)),
        version == SAVE_VERSION && validity_error(game@) is None && game@.outcome != Outcome::Exploring ==> (
        r matches Err(e) && e@ == finished_message()),
        version == SAVE_VERSION && validity_error(game@) is None && game@.outcome == Outcome::Exploring ==> (
        r matches Ok(g) && g@ == game@),
{
    if version < SAVE_VERSION {
        return Err(owned("Save from the three-floor prototype: the complex has grown. Start a new signal."));
    }
    if version > SAVE_VERSION {
        return Err(owned("Unsupported save version"));
    }
    match game.validate() {
        Err(e) => {
            return Err(e);
        },
        Ok(()) => {},
    }
    if game.outcome != Outcome::Exploring {
        return Err(owned("That expedition is over. Start a new signal."));
    }
    Ok(game)
}

/// The file name a used-up save is moved to: `.loaded` appended.
pub fn retired_name(file_name: &str) -> (r: String)
    ensures
        r@ == file_name@ + ".loaded"@,
{
    let mut r = owned(file_name);
    r.append(".loaded");
    r
}


/// The seed recorded in a save file's text, as `serde_json::from_str` reads
/// `game.seed`: `None` when the text is not JSON or holds no such number.
pub uninterp spec fn saved_seed(text: Seq<char>) -> Option<u64>;

/// Decodes a save file's text with `serde_json::from_str` into a JSON value
/// and reads `game.seed` as a `u64`. The contract only names the result.
#[verifier::external_body]
fn seed_of_save(text: &str) -> (r: Option<u64>)
    ensures
        r == saved_seed(text@),
{
    match serde_json::from_str::<serde_json::Value>(text) {
        Err(_) => None,
        Ok(v) => v["game"]["seed"].as_u64(),
    }
}

/// The save file's text belongs to the run with `seed`.
pub fn is_same_run(text: &str, seed: u64) -> (b: bool)
    ensures
        b == (saved_seed(text@) == Some(seed)),
{
    match seed_of_save(text) {
        Some(s) => s == seed,
        None => false,
    }
}

} // verus!
