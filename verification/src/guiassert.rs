//! The status bar of the window, in numbers.
//!
//! A message goes to a pane that exists: the field is taken from here, and
//! never spelled where it is used.

use vstd::prelude::*;

verus! {

/// Panes in the status bar. One: the whole message is the text.
pub const STATUS_FIELDS: usize = 1;

/// The only field a message may be written to.
pub const STATUS_PRIMARY_FIELD: usize = STATUS_FIELDS - 1;

/// The field that messages go to is a pane of the bar.
pub proof fn law_status_field_is_a_real_pane()
    ensures
        STATUS_FIELDS >= 1,
        STATUS_PRIMARY_FIELD < STATUS_FIELDS,
{
}

} // verus!
