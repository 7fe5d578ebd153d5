//! Per-vault Today Dashboard preferences: which sections are collapsed,
//! kept in the vault's own `.orgsidian` directory.
use vstd::prelude::*;

use crate::shell::{path_join, prefs_file_path};

verus! {

/// One collapsible dashboard section.
#[derive(Debug, Clone, Copy, PartialEq, Eq)]
pub enum DashboardSection {
    Scheduled,
    Deadline,
    TodayTag,
    InboxPreview,
    ActiveClock,
}

/// The store key of a section, which is also its camelCase wire name.
pub open spec fn section_key(s: DashboardSection) -> Seq<char> {
    match s {
        DashboardSection::Scheduled => "scheduled"@,
        DashboardSection::Deadline => "deadline"@,
        DashboardSection::TodayTag => "todayTag"@,
        DashboardSection::InboxPreview => "inboxPreview"@,
        DashboardSection::ActiveClock => "activeClock"@,
    }
}

impl DashboardSection {
    /// The store key of this section.
    pub fn key(self) -> (r: &'static str)
        ensures
            r@ == section_key(self),
    {
        match self {
            DashboardSection::Scheduled => "scheduled",
            DashboardSection::Deadline => "deadline",
            DashboardSection::TodayTag => "todayTag",
            DashboardSection::InboxPreview => "inboxPreview",
            DashboardSection::ActiveClock => "activeClock",
        }
    }
}

/// Which sections are collapsed; `false` is expanded.
#[derive(Debug, Clone, Copy, PartialEq, Eq)]
pub struct TodayDashboardPrefs {
    pub scheduled: bool,
    pub deadline: bool,
    pub today_tag: bool,
    pub inbox_preview: bool,
    pub active_clock: bool,
}

impl Default for TodayDashboardPrefs {
    /// Every section expanded.
    fn default() -> (r: Self)
        ensures
            !r.scheduled && !r.deadline && !r.today_tag && !r.inbox_preview && !r.active_clock,
    {
        TodayDashboardPrefs {
            scheduled: false,
            deadline: false,
            today_tag: false,
            inbox_preview: false,
            active_clock: false,
        }
    }
}

impl TodayDashboardPrefs {
    /// The prefs read back from a store: each section collapsed exactly when
    /// the store holds `true` under its key (a missing or non-boolean value
    /// reads as expanded).
    pub fn from_stored(
        scheduled: Option<bool>,
        deadline: Option<bool>,
        today_tag: Option<bool>,
        inbox_preview: Option<bool>,
        active_clock: Option<bool>,
    ) -> (r: Self)
        ensures
            r.scheduled == (scheduled == Some(true)),
            r.deadline == (deadline == Some(true)),
            r.today_tag == (today_tag == Some(true)),
            r.inbox_preview == (inbox_preview == Some(true)),
            r.active_clock == (active_clock == Some(true)),
    {
        TodayDashboardPrefs {
            scheduled: scheduled.unwrap_or(false),
            deadline: deadline.unwrap_or(false),
            today_tag: today_tag.unwrap_or(false),
            inbox_preview: inbox_preview.unwrap_or(false),
            active_clock: active_clock.unwrap_or(false),
        }
    }
}

/// `<vault>/.orgsidian/today-prefs.json`.
pub open spec fn dashboard_prefs_spec(vault_root: Seq<char>) -> Seq<char> {
    path_join(path_join(vault_root, ".orgsidian"@), "today-prefs.json"@)
}

/// The dashboard prefs store of the vault at `vault_root`.
pub fn dashboard_prefs_path(vault_root: &str) -> (r: String)
    ensures
        r@ == dashboard_prefs_spec(vault_root@),
{
    prefs_file_path(vault_root, "today-prefs.json")
}

} // verus!
