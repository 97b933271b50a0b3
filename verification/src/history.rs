//! Reading the window manager's state dump: pull the focus-history
//! identifiers out of the JSON text the history source hands over.

use vstd::prelude::*;

verus! {

/// What the extraction below returns for a given dump text: `None` when
/// the text is not JSON or its `focusHistory` member is no array, else
/// one identifier text per focus-history event, in event order.  The
/// value is a function of the dump text alone; it is named rather than
/// written out, since stating it would mean writing out a JSON parser.
pub uninterp spec fn focus_ids_of(state: Seq<char>) -> Option<Seq<Seq<char>>>;

/// Relies on serde_json to read the dump: `from_str` parses the text
/// into a `Value` (`None` on a parse error), `Value::get` looks up the
/// `focusHistory` member (`None` when absent or not an object),
/// `Value::as_array` views it as an array (`None` otherwise), and each
/// event is mapped to the plain JSON text (`Display for Value`) of its
/// `nodeId` member (indexing yields `null` for an absent member, so an
/// event without one reads as JSON `null` does).  All of it is a
/// function of the dump text alone, named [`focus_ids_of`].
#[verifier::external_body]
fn read_focus_ids(state: &str) -> (r: Option<Vec<String>>)
    ensures
        r is Some <==> focus_ids_of(state@) is Some,
        r matches Some(ids) ==> Some(ids.deep_view()) == focus_ids_of(state@),
{
    let root: serde_json::Value = serde_json::from_str(state).ok()?;
    let events = root.get("focusHistory")?.as_array()?;
    Some(events.iter().map(|e| e["nodeId"].to_string()).collect())
}

/// The window identifiers of the dump's focus-history events, oldest
/// first, each rendered as the JSON text of its identifier field.
/// `None` exactly when the dump is not JSON or holds no focus-history
/// array.  What the id texts hold is up to the external source; the
/// verified pipeline takes the list as a plain argument.
pub fn history_ids(state: &str) -> (r: Option<Vec<String>>)
    ensures
        r is Some <==> focus_ids_of(state@) is Some,
        r matches Some(ids) ==> Some(ids.deep_view()) == focus_ids_of(state@),
{
    read_focus_ids(state)
}

} // verus!
