//! Presentation-side state that carries logic of its own: the sort key, the
//! focused-table marker, and the filter entry widget with its validation.

use vstd::prelude::*;
use crate::filters::ConnectionFilter;
use crate::text::{numeral_ok, numeral_val, parse_u16, parse_u32, pop_char, push_char, spec_dec};
use vstd::string::StringExecFns;

verus! {

/// The column the tables sort by.
#[derive(Clone, Copy, Debug, PartialEq, Eq, Structural)]
pub enum SortBy {
    Total,
    Active,
    Max,
}

impl SortBy {
    /// The column's label.
    pub fn as_str(&self) -> (r: &'static str)
        ensures
            r@ == match self {
                SortBy::Total => "Total"@,
                SortBy::Active => "Active"@,
                SortBy::Max => "Max"@,
            },
    {
        match self {
            SortBy::Total => "Total",
            SortBy::Active => "Active",
            SortBy::Max => "Max",
        }
    }
}

/// The table holding keyboard focus.
#[derive(Clone, Copy, Debug, PartialEq, Eq, Structural)]
pub enum FocusedTable {
    ProcessHost,
    Process,
    Host,
}

/// The entry field selected in the filter popup.
#[derive(Clone, Copy, Debug, PartialEq, Eq, Structural)]
pub enum FilterField {
    Pid,
    ProcessName,
    RemoteHost,
    RemotePort,
}

/// The field after `f`, cycling.
pub open spec fn next_field(f: FilterField) -> FilterField {
    match f {
        FilterField::Pid => FilterField::ProcessName,
        FilterField::ProcessName => FilterField::RemoteHost,
        FilterField::RemoteHost => FilterField::RemotePort,
        FilterField::RemotePort => FilterField::Pid,
    }
}

/// The field before `f`, cycling.
pub open spec fn prev_field(f: FilterField) -> FilterField {
    match f {
        FilterField::Pid => FilterField::RemotePort,
        FilterField::ProcessName => FilterField::Pid,
        FilterField::RemoteHost => FilterField::ProcessName,
        FilterField::RemotePort => FilterField::RemoteHost,
    }
}

impl FilterField {
    /// The field's label.
    pub fn as_str(&self) -> (r: &'static str)
        ensures
            r@ == match self {
                FilterField::Pid => "PID"@,
                FilterField::ProcessName => "Process Name"@,
                FilterField::RemoteHost => "Remote Host"@,
                FilterField::RemotePort => "Remote Port"@,
            },
    {
        match self {
            FilterField::Pid => "PID",
            FilterField::ProcessName => "Process Name",
            FilterField::RemoteHost => "Remote Host",
            FilterField::RemotePort => "Remote Port",
        }
    }

    /// The next field, cycling.
    pub fn next(&self) -> (r: Self)
        ensures
            r == next_field(*self),
    {
        match self {
            FilterField::Pid => FilterField::ProcessName,
            FilterField::ProcessName => FilterField::RemoteHost,
            FilterField::RemoteHost => FilterField::RemotePort,
            FilterField::RemotePort => FilterField::Pid,
        }
    }

    /// The previous field, cycling.
    pub fn prev(&self) -> (r: Self)
        ensures
            r == prev_field(*self),
    {
        match self {
            FilterField::Pid => FilterField::RemotePort,
            FilterField::ProcessName => FilterField::Pid,
            FilterField::RemoteHost => FilterField::ProcessName,
            FilterField::RemotePort => FilterField::RemoteHost,
        }
    }
}

/// A key press, reduced to what the filter popup reacts to.
#[derive(Clone, Copy, Debug, PartialEq, Eq, Structural)]
pub enum FilterKey {
    Esc,
    Enter,
    Tab,
    BackTab,
    Char(char),
    Backspace,
    Other,
}

/// The filter entry popup: one text buffer per criterion, a selected field,
/// and the last validation error.
#[derive(Debug)]
pub struct FilterWidget {
    pub current_field: FilterField,
    pub pid_input: String,
    pub process_name_input: String,
    pub remote_host_input: String,
    pub remote_port_input: String,
    pub active: bool,
    pub error: Option<String>,
}

/// The buffer of the selected field.
pub open spec fn current_input(w: FilterWidget) -> Seq<char> {
    match w.current_field {
        FilterField::Pid => w.pid_input@,
        FilterField::ProcessName => w.process_name_input@,
        FilterField::RemoteHost => w.remote_host_input@,
        FilterField::RemotePort => w.remote_port_input@,
    }
}

/// Whether the four buffers parse into a filter: a non-empty pid buffer must
/// be a numeral no larger than `u32::MAX`, a non-empty port buffer a numeral
/// no larger than `u16::MAX`.
pub open spec fn inputs_valid(w: FilterWidget) -> bool {
    &&& (w.pid_input@.len() > 0 ==> numeral_ok(w.pid_input@) && numeral_val(w.pid_input@)
        <= u32::MAX)
    &&& (w.remote_port_input@.len() > 0 ==> numeral_ok(w.remote_port_input@) && numeral_val(
        w.remote_port_input@,
    ) <= u16::MAX)
}

/// The filter the buffers denote, when they are valid: empty buffers leave
/// their criterion unset.
pub open spec fn built_filter(w: FilterWidget, f: ConnectionFilter) -> bool {
    &&& f.pid == (if w.pid_input@.len() > 0 {
        Some(numeral_val(w.pid_input@) as u32)
    } else {
        None::<u32>
    })
    &&& crate::filters::opt_view(f.process_name) == (if w.process_name_input@.len() > 0 {
        Some(w.process_name_input@)
    } else {
        None::<Seq<char>>
    })
    &&& crate::filters::opt_view(f.remote_host) == (if w.remote_host_input@.len() > 0 {
        Some(w.remote_host_input@)
    } else {
        None::<Seq<char>>
    })
    &&& f.remote_port == (if w.remote_port_input@.len() > 0 {
        Some(numeral_val(w.remote_port_input@) as u16)
    } else {
        None::<u16>
    })
}

impl FilterWidget {
    /// A hidden popup with empty buffers, selecting the pid field.
    pub fn new() -> (r: Self)
        ensures
            r.current_field == FilterField::Pid,
            r.pid_input@.len() == 0,
            r.process_name_input@.len() == 0,
            r.remote_host_input@.len() == 0,
            r.remote_port_input@.len() == 0,
            !r.active,
            r.error is None,
    {
        FilterWidget {
            current_field: FilterField::Pid,
            pid_input: String::new(),
            process_name_input: String::new(),
            remote_host_input: String::new(),
            remote_port_input: String::new(),
            active: false,
            error: None,
        }
    }

    /// Opens the popup pre-filled from the current filter, selecting the pid
    /// field and clearing any error.
    pub fn show(&mut self, current_filter: &ConnectionFilter)
        ensures
            final(self).active,
            final(self).error is None,
            final(self).current_field == FilterField::Pid,
            final(self).pid_input@ == match current_filter.pid {
                Some(p) => spec_dec(p as nat),
                None => Seq::<char>::empty(),
            },
            final(self).process_name_input@ == match current_filter.process_name {
                Some(n) => n@,
                None => Seq::<char>::empty(),
            },
            final(self).remote_host_input@ == match current_filter.remote_host {
                Some(h) => h@,
                None => Seq::<char>::empty(),
            },
            final(self).remote_port_input@ == match current_filter.remote_port {
                Some(p) => spec_dec(p as nat),
                None => Seq::<char>::empty(),
            },
    {
        self.active = true;
        self.error = None;
        self.pid_input = match current_filter.pid {
            Some(p) => crate::text::u64_to_string(p as u64),
            None => String::new(),
        };
        self.process_name_input = match &current_filter.process_name {
            Some(n) => n.clone(),
            None => String::new(),
        };
        self.remote_host_input = match &current_filter.remote_host {
            Some(h) => h.clone(),
            None => String::new(),
        };
        self.remote_port_input = match current_filter.remote_port {
            Some(p) => crate::text::u64_to_string(p as u64),
            None => String::new(),
        };
        self.current_field = FilterField::Pid;
    }

    /// Closes the popup; the buffers keep their contents.
    pub fn dismiss(&mut self)
        ensures
            *final(self) == (FilterWidget { active: false, ..*old(self) }),
    {
        self.active = false;
    }

    /// Whether the popup is open.
    pub fn is_active(&self) -> (r: bool)
        ensures
            r == self.active,
    {
        self.active
    }

    /// The buffer of the selected field, for rendering.
    pub fn get_input_for_current_field(&self) -> (r: &str)
        ensures
            r@ == current_input(*self),
    {
        match self.current_field {
            FilterField::Pid => self.pid_input.as_str(),
            FilterField::ProcessName => self.process_name_input.as_str(),
            FilterField::RemoteHost => self.remote_host_input.as_str(),
            FilterField::RemotePort => self.remote_port_input.as_str(),
        }
    }

    /// Builds the filter the buffers denote, or reports the first buffer
    /// that does not parse; the previous filter then stays active upstream.
    fn build_filter(&self) -> (r: Result<ConnectionFilter, String>)
        ensures
            match r {
                Ok(f) => inputs_valid(*self) && built_filter(*self, f),
                Err(_) => !inputs_valid(*self),
            },
    {
        let mut filter = ConnectionFilter::new();
        if !self.pid_input.as_str().is_empty() {
            match parse_u32(self.pid_input.as_str()) {
                Some(pid) => {
                    filter.pid = Some(pid);
                },
                None => {
                    let mut msg = String::from_str("Invalid PID: ");
                    msg.append(self.pid_input.as_str());
                    return Err(msg);
                },
            }
        }
        if !self.process_name_input.as_str().is_empty() {
            filter.process_name = Some(self.process_name_input.clone());
        }
        if !self.remote_host_input.as_str().is_empty() {
            filter.remote_host = Some(self.remote_host_input.clone());
        }
        if !self.remote_port_input.as_str().is_empty() {
            match parse_u16(self.remote_port_input.as_str()) {
                Some(port) => {
                    filter.remote_port = Some(port);
                },
                None => {
                    let mut msg = String::from_str("Invalid port: ");
                    msg.append(self.remote_port_input.as_str());
                    return Err(msg);
                },
            }
        }
        proof {
            vstd::string::axiom_str_literal_len("");
        }
        Ok(filter)
    }

    /// Reacts to one key press: Esc cancels, Enter validates and applies,
    /// Tab and Shift-Tab move between fields, characters and Backspace edit
    /// the selected buffer. An inactive popup ignores everything.
    pub fn handle_key_event(&mut self, key: FilterKey) -> (r: Option<ConnectionFilter>)
        ensures
            !old(self).active ==> *final(self) == *old(self) && r is None,
            old(self).active ==> match key {
                FilterKey::Esc => *final(self) == (FilterWidget { active: false, ..*old(self) })
                    && r is None,
                FilterKey::Enter => {
                    if inputs_valid(*old(self)) {
                        &&& r matches Some(f) && built_filter(*old(self), f)
                        &&& !final(self).active
                    } else {
                        r is None && final(self).active && final(self).error is Some
                    }
                },
                FilterKey::Tab => final(self).current_field == next_field(old(self).current_field)
                    && r is None,
                FilterKey::BackTab => final(self).current_field == prev_field(old(self).current_field)
                    && r is None,
                FilterKey::Char(c) => current_input(*final(self)) == current_input(
                    *old(self),
                ).push(c) && final(self).current_field == old(self).current_field && r is None,
                FilterKey::Backspace => current_input(*final(self)) == (if current_input(
                    *old(self),
                ).len() > 0 {
                    current_input(*old(self)).drop_last()
                } else {
                    current_input(*old(self))
                }) && final(self).current_field == old(self).current_field && r is None,
                FilterKey::Other => *final(self) == *old(self) && r is None,
            },
    {
        if !self.active {
            return None;
        }
        match key {
            FilterKey::Esc => {
                self.dismiss();
                None
            },
            FilterKey::Enter => {
                match self.build_filter() {
                    Ok(filter) => {
                        self.dismiss();
                        Some(filter)
                    },
                    Err(msg) => {
                        self.error = Some(msg);
                        None
                    },
                }
            },
            FilterKey::Tab => {
                self.current_field = self.current_field.next();
                None
            },
            FilterKey::BackTab => {
                self.current_field = self.current_field.prev();
                None
            },
            FilterKey::Char(c) => {
                match self.current_field {
                    FilterField::Pid => push_char(&mut self.pid_input, c),
                    FilterField::ProcessName => push_char(&mut self.process_name_input, c),
                    FilterField::RemoteHost => push_char(&mut self.remote_host_input, c),
                    FilterField::RemotePort => push_char(&mut self.remote_port_input, c),
                }
                None
            },
            FilterKey::Backspace => {
                match self.current_field {
                    FilterField::Pid => pop_char(&mut self.pid_input),
                    FilterField::ProcessName => pop_char(&mut self.process_name_input),
                    FilterField::RemoteHost => pop_char(&mut self.remote_host_input),
                    FilterField::RemotePort => pop_char(&mut self.remote_port_input),
                }
                None
            },
            FilterKey::Other => None,
        }
    }
}

} // verus!
