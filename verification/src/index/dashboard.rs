//! The Today Dashboard: five sections read in one snapshot — Scheduled
//! today, Deadlines overdue or due today, the Today-Tag items, the Inbox
//! preview, and the running clock.
use vstd::prelude::*;

use crate::index::agenda::{item_matches, today_items, AgendaItem, AgendaRow};

verus! {

/// What the dashboard is asked for.
#[derive(Debug, Clone, PartialEq)]
pub struct DashboardParams {
    /// The caller's local calendar day, `YYYY-MM-DD`.
    pub today: String,
    /// The tag whose items form the Today-Tag section.
    pub today_tag: String,
    /// How many Inbox entries to preview.
    pub inbox_preview_count: usize,
}

/// One Inbox preview row: a headline of the vault-root `inbox.org`.
#[derive(Debug, Clone, PartialEq)]
pub struct InboxItem {
    pub headline_id: i64,
    pub file_path: String,
    pub title: String,
    pub byte_start: i64,
    pub todo_keyword: Option<String>,
}

/// The running clock: a CLOCK entry with no end.
#[derive(Debug, Clone, PartialEq)]
pub struct ActiveClock {
    pub headline_id: i64,
    pub file_path: String,
    pub title: String,
    pub byte_start: i64,
    /// The entry's start, as stored.
    pub start_at: String,
}

/// The assembled dashboard.
#[derive(Debug, Clone, PartialEq)]
pub struct TodayDashboard {
    pub scheduled: Vec<AgendaItem>,
    pub deadlines: Vec<AgendaItem>,
    pub today_tag: Vec<AgendaItem>,
    pub inbox: Vec<InboxItem>,
    pub active_clock: Option<ActiveClock>,
}

/// The Inbox query's row limit: the preview count, saturated at the largest
/// SQL integer.
pub fn inbox_limit(count: usize) -> (r: i64)
    ensures
        r == if count <= i64::MAX {
            count as int
        } else {
            i64::MAX as int
        },
{
    if count as u128 <= i64::MAX as u128 {
        count as i64
    } else {
        i64::MAX
    }
}

/// `section` holds exactly the fetched `rows`, as Today rows of `today`.
pub open spec fn section_of(section: Seq<AgendaItem>, rows: Seq<AgendaRow>, today: Seq<char>) -> bool {
    &&& section.len() == rows.len()
    &&& forall|k: int| 0 <= k < rows.len() ==> item_matches(#[trigger] section[k], rows[k], today, today)
}

/// Assemble the dashboard from the fetched sections: the three agenda
/// sections become Today rows of `params.today`; the Inbox preview and the
/// running clock are kept as fetched.
pub fn assemble_dashboard(
    params: &DashboardParams,
    scheduled: Vec<AgendaRow>,
    deadlines: Vec<AgendaRow>,
    tagged: Vec<AgendaRow>,
    inbox: Vec<InboxItem>,
    active_clock: Option<ActiveClock>,
) -> (r: TodayDashboard)
    ensures
        section_of(r.scheduled@, scheduled@, params.today@),
        section_of(r.deadlines@, deadlines@, params.today@),
        section_of(r.today_tag@, tagged@, params.today@),
        r.inbox@ == inbox@,
        r.active_clock == active_clock,
{
    let today = params.today.as_str();
    TodayDashboard {
        scheduled: today_items(scheduled, today),
        deadlines: today_items(deadlines, today),
        today_tag: today_items(tagged, today),
        inbox,
        active_clock,
    }
}

} // verus!
