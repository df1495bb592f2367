use crate::text::text_eq;
use vstd::prelude::*;

verus! {

/// A change to the key-value store that a button makes.
#[derive(Debug, Clone)]
pub enum StoreAction {
    Assign { key: String, value: String },
    Append { key: String, value: String },
    Delete { key: String },
    /// Remove `delete_count` elements of the array under `key` from `index`
    /// on, and put `value` there if it is not empty.
    Splice { key: String, index: usize, delete_count: usize, value: String },
}

/// The store action of a button of the given action type: `append` and
/// `delete` name theirs, any other type sets the key.
pub fn button_action(action_type: &str, key: String, value: String) -> (r: StoreAction)
    ensures
        r == (if action_type@ == "append"@ {
            StoreAction::Append { key, value }
        } else if action_type@ == "delete"@ {
            StoreAction::Delete { key }
        } else {
            StoreAction::Assign { key, value }
        }),
{
    if text_eq(action_type, "append") {
        StoreAction::Append { key, value }
    } else if text_eq(action_type, "delete") {
        StoreAction::Delete { key }
    } else {
        StoreAction::Assign { key, value }
    }
}

} // verus!
