//! What the dialogs do with a click: the settings editor, the warning before
//! a large run, the choice among several address columns, and the error
//! message.

use vstd::prelude::*;
use vstd::string::StringExecFns;

verus! {

/// Which dialogs are open, and what they hold.
#[derive(Debug, Clone)]
pub struct DialogState {
    pub show_settings: bool,
    pub show_ip_warning: bool,
    pub show_excel_column_picker: bool,
    pub show_about: bool,
    pub show_error: bool,
    pub error_title: String,
    pub error_message: String,
    pub ip_count_warning: usize,
    pub ip_warning_confirmed: bool,
    pub excel_columns: Vec<(usize, String)>,
    pub selected_excel_column: Option<usize>,
    pub excel_column_confirmed: bool,
}

impl DialogState {
    /// No dialog open, nothing chosen or confirmed, no text.
    pub open spec fn is_initial(&self) -> bool {
        &&& !self.show_settings
        &&& !self.show_ip_warning
        &&& !self.show_excel_column_picker
        &&& !self.show_about
        &&& !self.show_error
        &&& self.error_title@ == Seq::<char>::empty()
        &&& self.error_message@ == Seq::<char>::empty()
        &&& self.ip_count_warning == 0
        &&& !self.ip_warning_confirmed
        &&& self.excel_columns@ == Seq::<(usize, String)>::empty()
        &&& self.selected_excel_column is None
        &&& !self.excel_column_confirmed
    }

    /// Opens the error dialog with a title and a message.
    pub fn show_error(&mut self, title: &str, message: &str)
        ensures
            final(self).error_title@ == title@,
            final(self).error_message@ == message@,
            final(self).show_error,
            final(self).show_settings == old(self).show_settings,
            final(self).show_ip_warning == old(self).show_ip_warning,
            final(self).show_excel_column_picker == old(self).show_excel_column_picker,
            final(self).show_about == old(self).show_about,
            final(self).ip_count_warning == old(self).ip_count_warning,
            final(self).ip_warning_confirmed == old(self).ip_warning_confirmed,
            final(self).excel_columns == old(self).excel_columns,
            final(self).selected_excel_column == old(self).selected_excel_column,
            final(self).excel_column_confirmed == old(self).excel_column_confirmed,
    {
        self.error_title = String::from_str(title);
        self.error_message = String::from_str(message);
        self.show_error = true;
    }

    /// "Continue" in the warning before a large run: confirmed, closed.
    pub fn confirm_ip_warning(&mut self)
        ensures
            *final(self) == (DialogState {
                ip_warning_confirmed: true,
                show_ip_warning: false,
                ..*old(self)
            }),
    {
        self.ip_warning_confirmed = true;
        self.show_ip_warning = false;
    }

    /// "Cancel" in the warning before a large run: not confirmed, closed.
    pub fn cancel_ip_warning(&mut self)
        ensures
            *final(self) == (DialogState {
                ip_warning_confirmed: false,
                show_ip_warning: false,
                ..*old(self)
            }),
    {
        self.ip_warning_confirmed = false;
        self.show_ip_warning = false;
    }

    /// Whether the selected column, if any, is one of the columns offered.
    pub open spec fn selection_listed(&self) -> bool {
        self.selected_excel_column matches Some(c) ==> column_listed(self.excel_columns@, c)
    }

    /// The state after a click on column `col` in the column picker: while
    /// the picker is open, a column that it offers becomes the selection;
    /// anything else leaves the state as it was.
    pub open spec fn after_select(self, col: usize) -> DialogState {
        if self.show_excel_column_picker && column_listed(self.excel_columns@, col) {
            DialogState { selected_excel_column: Some(col), ..self }
        } else {
            self
        }
    }

    /// The state after "OK" in the column picker: while the picker is open
    /// and a column is selected, the choice is confirmed and the picker
    /// closes; otherwise nothing happens.
    pub open spec fn after_confirm(self) -> DialogState {
        if self.show_excel_column_picker && self.selected_excel_column is Some {
            DialogState { excel_column_confirmed: true, show_excel_column_picker: false, ..self }
        } else {
            self
        }
    }

    /// The state after "Cancel" in the column picker: while the picker is
    /// open, nothing is selected or confirmed and the picker closes.
    pub open spec fn after_cancel(self) -> DialogState {
        if self.show_excel_column_picker {
            DialogState {
                selected_excel_column: None,
                excel_column_confirmed: false,
                show_excel_column_picker: false,
                ..self
            }
        } else {
            self
        }
    }

    /// A click on a column in the open column picker selects it, if it is
    /// one of the columns offered.
    pub fn select_excel_column(&mut self, col: usize)
        ensures
            *final(self) == old(self).after_select(col),
    {
        if !self.show_excel_column_picker {
            return;
        }
        let mut listed = false;
        let mut k: usize = 0;
        while k < self.excel_columns.len() && !listed
            invariant
                k <= self.excel_columns@.len(),
                listed ==> column_listed(self.excel_columns@, col),
                !listed ==> forall|j: int| 0 <= j < k ==> (#[trigger] self.excel_columns@[j]).0 != col,
            decreases self.excel_columns@.len() - k,
        {
            if self.excel_columns[k].0 == col {
                assert(self.excel_columns@[k as int].0 == col);
                listed = true;
            }
            k = k + 1;
        }
        if listed {
            self.selected_excel_column = Some(col);
        }
    }

    /// "OK" in the column picker: with a column selected, the choice is
    /// confirmed and the picker closes; without one, nothing happens.
    pub fn confirm_excel_column(&mut self)
        ensures
            *final(self) == old(self).after_confirm(),
    {
        if self.show_excel_column_picker && self.selected_excel_column.is_some() {
            self.excel_column_confirmed = true;
            self.show_excel_column_picker = false;
        }
    }

    /// "Cancel" in the column picker: nothing selected or confirmed, closed.
    pub fn cancel_excel_column_picker(&mut self)
        ensures
            *final(self) == old(self).after_cancel(),
    {
        if self.show_excel_column_picker {
            self.selected_excel_column = None;
            self.excel_column_confirmed = false;
            self.show_excel_column_picker = false;
        }
    }

    /// "OK" in the error dialog closes it.
    pub fn dismiss_error(&mut self)
        ensures
            *final(self) == (DialogState { show_error: false, ..*old(self) }),
    {
        self.show_error = false;
    }
}

/// Whether some column offered in `cols` has index `c`.
pub open spec fn column_listed(cols: Seq<(usize, String)>, c: usize) -> bool {
    exists|k: int| 0 <= k < cols.len() && (#[trigger] cols[k]).0 == c
}

/// The column picker never selects a column that it does not offer: from a
/// state whose selection is one of the offered columns (or none), a click
/// on a column, "OK" and "Cancel" each lead to such a state again, and none
/// of them changes the columns offered. While the picker is closed, none of
/// them changes anything.
pub proof fn lemma_picker_keeps_selection_listed(d: DialogState, col: usize)
    requires
        d.selection_listed(),
    ensures
        d.after_select(col).selection_listed(),
        d.after_confirm().selection_listed(),
        d.after_cancel().selection_listed(),
        d.after_select(col).excel_columns == d.excel_columns,
        d.after_confirm().excel_columns == d.excel_columns,
        d.after_cancel().excel_columns == d.excel_columns,
        !d.show_excel_column_picker ==> d.after_select(col) == d && d.after_confirm() == d
            && d.after_cancel() == d,
{
}

impl Default for DialogState {
    fn default() -> (r: DialogState)
        ensures
            r.is_initial(),
    {
        DialogState {
            show_settings: false,
            show_ip_warning: false,
            show_excel_column_picker: false,
            show_about: false,
            show_error: false,
            error_title: String::new(),
            error_message: String::new(),
            ip_count_warning: 0,
            ip_warning_confirmed: false,
            excel_columns: Vec::new(),
            selected_excel_column: None,
            excel_column_confirmed: false,
        }
    }
}

} // verus!
