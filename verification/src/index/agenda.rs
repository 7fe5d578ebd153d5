//! Agenda rows: what one fetched headline row means on the Today and Week
//! agendas, and the stable by-date order of the Week view.
//!
//! The queries select, across every non-quarantined file and without DONE
//! items, the headlines Scheduled for the day (or within the window) and the
//! Deadlines overdue or due by then, in `(file_path, position)` order. Dates
//! are ISO-8601 `YYYY-MM-DD` text, whose byte order is calendar order.
use vstd::prelude::*;
use vstd::string::StringSliceAdditionalSpecFns;
use vstd::utf8::encode_utf8;

use crate::text::{
    lemma_lex_asymmetric, lemma_lex_irreflexive, lemma_lex_le_transitive, lex_lt, str_less,
    str_lt,
};

verus! {

/// One headline row as the agenda queries fetch it.
#[derive(Debug, Clone, PartialEq)]
pub struct AgendaRow {
    pub headline_id: i64,
    pub file_path: String,
    pub title: String,
    pub byte_start: i64,
    pub todo_keyword: Option<String>,
    pub scheduled_date: Option<String>,
    pub scheduled_time: Option<String>,
    pub deadline_date: Option<String>,
    pub deadline_time: Option<String>,
}

/// One Agenda row: a Scheduled or Deadline headline, with the source-file
/// identity the views group by and open.
#[derive(Debug, Clone, PartialEq)]
pub struct AgendaItem {
    /// `headlines.id`.
    pub headline_id: i64,
    /// `files.path`, verbatim.
    pub file_path: String,
    /// Headline title, stars/keyword/tags stripped.
    pub title: String,
    /// The section's byte offset in its file.
    pub byte_start: i64,
    /// TODO keyword, when the headline carries one.
    pub todo_keyword: Option<String>,
    /// `SCHEDULED:` date.
    pub scheduled_date: Option<String>,
    /// `SCHEDULED:` time.
    pub scheduled_time: Option<String>,
    /// `DEADLINE:` date.
    pub deadline_date: Option<String>,
    /// `DEADLINE:` time.
    pub deadline_time: Option<String>,
    /// The Deadline lies strictly before the view's anchor day.
    pub overdue: bool,
    /// The calendar day the row is grouped under.
    pub agenda_date: String,
}

/// A Deadline strictly before `anchor` (byte order on the date text).
pub open spec fn overdue_spec(deadline: Option<String>, anchor: Seq<char>) -> bool {
    match deadline {
        Some(d) => str_lt(d@, anchor),
        None => false,
    }
}

/// `item` is `row` on the view anchored at `anchor`, grouped under `day`.
pub open spec fn item_matches(item: AgendaItem, row: AgendaRow, anchor: Seq<char>, day: Seq<char>) -> bool {
    &&& item.headline_id == row.headline_id
    &&& item.file_path == row.file_path
    &&& item.title == row.title
    &&& item.byte_start == row.byte_start
    &&& item.todo_keyword == row.todo_keyword
    &&& item.scheduled_date == row.scheduled_date
    &&& item.scheduled_time == row.scheduled_time
    &&& item.deadline_date == row.deadline_date
    &&& item.deadline_time == row.deadline_time
    &&& item.overdue == overdue_spec(row.deadline_date, anchor)
    &&& item.agenda_date@ == day
}

/// The Today row: overdue against `today`, grouped under `today` itself
/// (every row selected for the day belongs on it).
pub fn today_item(row: AgendaRow, today: &str) -> (r: AgendaItem)
    ensures
        item_matches(r, row, today@, today@),
{
    let overdue = match &row.deadline_date {
        Some(d) => str_less(d.as_str(), today),
        None => false,
    };
    AgendaItem {
        headline_id: row.headline_id,
        file_path: row.file_path,
        title: row.title,
        byte_start: row.byte_start,
        todo_keyword: row.todo_keyword,
        scheduled_date: row.scheduled_date,
        scheduled_time: row.scheduled_time,
        deadline_date: row.deadline_date,
        deadline_time: row.deadline_time,
        overdue,
        agenda_date: today.to_owned(),
    }
}

/// Every fetched row of the Today agenda, in fetch order.
pub fn today_items(rows: Vec<AgendaRow>, today: &str) -> (r: Vec<AgendaItem>)
    ensures
        r@.len() == rows@.len(),
        forall|k: int| 0 <= k < rows@.len() ==> item_matches(#[trigger] r@[k], rows@[k], today@, today@),
{
    let ghost orig = rows@;
    let mut rest = rows;
    let mut out: Vec<AgendaItem> = Vec::new();
    while rest.len() > 0
        invariant
            out@.len() + rest@.len() == orig.len(),
            rest@ == orig.subrange(out@.len() as int, orig.len() as int),
            forall|k: int| 0 <= k < out@.len() ==> item_matches(#[trigger] out@[k], orig[k], today@, today@),
        decreases rest@.len(),
    {
        let row = rest.remove(0);
        proof {
            assert(row == orig[out@.len() as int]);
        }
        out.push(today_item(row, today));
        proof {
            assert(rest@ =~= orig.subrange(out@.len() as int, orig.len() as int));
        }
    }
    out
}

/// `lo <= d <= hi` on date text.
pub open spec fn within(d: Seq<char>, lo: Seq<char>, hi: Seq<char>) -> bool {
    !str_lt(d, lo) && !str_lt(hi, d)
}

/// The Week grouping day: the Scheduled date when it lies in the window;
/// else the Deadline date unless it is overdue; else the window's first day.
pub open spec fn week_day_spec(row: AgendaRow, start: Seq<char>, end: Seq<char>) -> Seq<char> {
    match row.scheduled_date {
        Some(s) if within(s@, start, end) => s@,
        _ => match row.deadline_date {
            Some(d) if !str_lt(d@, start) => d@,
            _ => start,
        },
    }
}

/// The Week query's row selection: Scheduled within the window, or a
/// Deadline on or before its last day.
pub open spec fn week_selected(row: AgendaRow, start: Seq<char>, end: Seq<char>) -> bool {
    ||| (row.scheduled_date matches Some(s) && within(s@, start, end))
    ||| (row.deadline_date matches Some(d) && !str_lt(end, d@))
}

/// The Week row for the window `[start, end]`.
pub fn week_item(row: AgendaRow, start: &str, end: &str) -> (r: AgendaItem)
    ensures
        item_matches(r, row, start@, week_day_spec(row, start@, end@)),
        row.scheduled_date matches Some(sd) ==> (!str_lt(sd@, start@) && !str_lt(end@, sd@)
            ==> r.agenda_date@ == sd@),
{
    let overdue = match &row.deadline_date {
        Some(d) => str_less(d.as_str(), start),
        None => false,
    };
    let in_window = match &row.scheduled_date {
        Some(s) => !str_less(s.as_str(), start) && !str_less(end, s.as_str()),
        None => false,
    };
    let agenda_date = if in_window {
        match &row.scheduled_date {
            Some(s) => s.as_str().to_owned(),
            None => start.to_owned(),
        }
    } else {
        match &row.deadline_date {
            Some(d) if !overdue => d.as_str().to_owned(),
            _ => start.to_owned(),
        }
    };
    AgendaItem {
        headline_id: row.headline_id,
        file_path: row.file_path,
        title: row.title,
        byte_start: row.byte_start,
        todo_keyword: row.todo_keyword,
        scheduled_date: row.scheduled_date,
        scheduled_time: row.scheduled_time,
        deadline_date: row.deadline_date,
        deadline_time: row.deadline_time,
        overdue,
        agenda_date,
    }
}

/// A selected Week row always lands inside its window: its grouping day lies
/// between the window's first and last days.
pub proof fn lemma_week_day_in_window(row: AgendaRow, start: Seq<char>, end: Seq<char>)
    requires
        week_selected(row, start, end),
        !str_lt(end, start),
    ensures
        within(week_day_spec(row, start, end), start, end),
{
    lemma_lex_irreflexive(encode_utf8(start), 0);
}

/// An in-window Scheduled date wins the Week grouping: a row Scheduled on
/// a day of the window is grouped under that day, whatever its Deadline.
pub proof fn lemma_scheduled_day_wins(row: AgendaRow, start: Seq<char>, end: Seq<char>)
    requires
        row.scheduled_date matches Some(sd) && !str_lt(sd@, start) && !str_lt(end, sd@),
    ensures
        week_day_spec(row, start, end) == row.scheduled_date->0@,
{
}

/// The grouping key of an item: the bytes of its agenda date.
pub open spec fn date_key(x: AgendaItem) -> Seq<u8> {
    encode_utf8(x.agenda_date@)
}

/// `a` is grouped under a strictly earlier day than `b`.
pub open spec fn date_before(a: AgendaItem, b: AgendaItem) -> bool {
    lex_lt(date_key(a), date_key(b))
}

/// Nondecreasing by agenda date.
pub open spec fn sorted_by_date(s: Seq<AgendaItem>) -> bool {
    forall|j: int, k: int| 0 <= j < k < s.len() ==> !date_before(#[trigger] s[k], #[trigger] s[j])
}

/// `p` maps the positions of a sequence of length `n` one-to-one onto
/// positions of another of the same length.
pub open spec fn is_permutation(p: Seq<int>, n: int) -> bool {
    &&& p.len() == n
    &&& forall|k: int| 0 <= k < n ==> 0 <= #[trigger] p[k] < n
    &&& forall|j: int, k: int| 0 <= j < k < n ==> #[trigger] p[j] != #[trigger] p[k]
}

/// `r` is `v` sorted by agenda date, stably: `r[k]` is `v[p[k]]` for a
/// permutation `p` that keeps the incoming order among equal dates.
pub open spec fn stable_sort_witness(r: Seq<AgendaItem>, v: Seq<AgendaItem>, p: Seq<int>) -> bool {
    &&& r.len() == v.len()
    &&& is_permutation(p, v.len() as int)
    &&& forall|k: int| 0 <= k < r.len() ==> #[trigger] r[k] == v[p[k]]
    &&& sorted_by_date(r)
    &&& forall|j: int, k: int|
        0 <= j < k < r.len() && date_key(#[trigger] r[j]) == date_key(#[trigger] r[k]) ==> p[j]
            < p[k]
}

/// `r` is the stable sort of `v` by agenda date.
pub open spec fn stably_sorted_by_date(r: Seq<AgendaItem>, v: Seq<AgendaItem>) -> bool {
    exists|p: Seq<int>| stable_sort_witness(r, v, p)
}

/// Where `x` goes in the sorted `out`: after every item not after it.
fn insertion_point(out: &Vec<AgendaItem>, x: &AgendaItem) -> (pos: usize)
    requires
        sorted_by_date(out@),
    ensures
        pos <= out@.len(),
        forall|j: int| 0 <= j < pos ==> !date_before(*x, #[trigger] out@[j]),
        forall|j: int| pos <= j < out@.len() ==> date_before(*x, #[trigger] out@[j]),
{
    let mut pos = out.len();
    while pos > 0
        invariant
            pos <= out@.len(),
            sorted_by_date(out@),
            forall|j: int| pos <= j < out@.len() ==> date_before(*x, #[trigger] out@[j]),
        decreases pos,
    {
        let less = str_less(x.agenda_date.as_str(), out[pos - 1].agenda_date.as_str());
        if !less {
            proof {
                assert forall|j: int| 0 <= j < pos implies !date_before(*x, #[trigger] out@[j]) by {
                    if j < pos - 1 {
                        assert(!date_before(out@[pos - 1], out@[j]));
                        lemma_lex_le_transitive(
                            date_key(out@[j]),
                            date_key(out@[pos - 1]),
                            date_key(*x),
                            0,
                        );
                    }
                }
            }
            return pos;
        }
        pos = pos - 1;
    }
    pos
}

/// Sort by agenda date, keeping the incoming order among equal dates.
pub fn sort_by_agenda_date(items: Vec<AgendaItem>) -> (r: Vec<AgendaItem>)
    ensures
        stably_sorted_by_date(r@, items@),
{
    let ghost orig = items@;
    let mut rest = items;
    let mut out: Vec<AgendaItem> = Vec::new();
    let ghost mut p: Seq<int> = Seq::empty();
    while rest.len() > 0
        invariant
            out@.len() + rest@.len() == orig.len(),
            rest@ == orig.subrange(out@.len() as int, orig.len() as int),
            p.len() == out@.len(),
            forall|k: int| 0 <= k < out@.len() ==> 0 <= #[trigger] p[k] < out@.len(),
            forall|j: int, k: int| 0 <= j < k < out@.len() ==> #[trigger] p[j] != #[trigger] p[k],
            forall|k: int| 0 <= k < out@.len() ==> #[trigger] out@[k] == orig[p[k]],
            sorted_by_date(out@),
            forall|j: int, k: int|
                0 <= j < k < out@.len() && date_key(#[trigger] out@[j]) == date_key(
                    #[trigger] out@[k],
                ) ==> p[j] < p[k],
        decreases rest@.len(),
    {
        let ghost i = out@.len() as int;
        let ghost old_out = out@;
        let ghost old_p = p;
        let x = rest.remove(0);
        proof {
            assert(x == orig[i]);
        }
        let pos = insertion_point(&out, &x);
        out.insert(pos, x);
        proof {
            p = old_p.insert(pos as int, i);
            let n = out@.len() as int;
            assert(out@ == old_out.insert(pos as int, x));
            assert forall|k: int| 0 <= k < n implies #[trigger] out@[k] == orig[p[k]] by {
                if k < pos {
                    assert(out@[k] == old_out[k]);
                } else if k > pos {
                    assert(out@[k] == old_out[k - 1]);
                }
            }
            assert forall|k: int| 0 <= k < n implies 0 <= #[trigger] p[k] < n by {
                if k < pos {
                    assert(p[k] == old_p[k]);
                } else if k > pos {
                    assert(p[k] == old_p[k - 1]);
                }
            }
            assert forall|j: int, k: int| 0 <= j < k < n implies #[trigger] p[j] != #[trigger] p[k] by {
                if j < pos && k < pos {
                    assert(old_p[j] != old_p[k]);
                } else if j < pos && k > pos {
                    assert(old_p[j] != old_p[k - 1]);
                } else if j > pos && k > pos {
                    assert(old_p[j - 1] != old_p[k - 1]);
                } else if j == pos {
                    assert(old_p[k - 1] < i);
                } else {
                    assert(old_p[j] < i);
                }
            }
            assert forall|j: int, k: int| 0 <= j < k < n implies !date_before(
                #[trigger] out@[k],
                #[trigger] out@[j],
            ) by {
                if k < pos {
                    assert(!date_before(old_out[k], old_out[j]));
                } else if k == pos {
                    assert(!date_before(x, old_out[j]));
                } else if j < pos {
                    assert(!date_before(old_out[k - 1], old_out[j]));
                } else if j == pos {
                    assert(date_before(x, old_out[k - 1]));
                    lemma_lex_asymmetric(date_key(x), date_key(old_out[k - 1]), 0);
                } else {
                    assert(!date_before(old_out[k - 1], old_out[j - 1]));
                }
            }
            assert forall|j: int, k: int|
                0 <= j < k < n && date_key(#[trigger] out@[j]) == date_key(#[trigger] out@[k]) implies p[j]
                < p[k] by {
                if k < pos {
                    assert(old_p[j] < old_p[k]);
                } else if k == pos {
                    assert(old_p[j] < i);
                } else if j < pos {
                    assert(old_p[j] < old_p[k - 1]);
                } else if j == pos {
                    assert(date_before(x, old_out[k - 1]));
                    lemma_lex_irreflexive(date_key(x), 0);
                } else {
                    assert(old_p[j - 1] < old_p[k - 1]);
                }
            }
            assert(rest@ =~= orig.subrange(out@.len() as int, orig.len() as int));
        }
    }
    proof {
        assert(stable_sort_witness(out@, orig, p));
    }
    out
}

/// The Week agenda for the window `[start, end]`: each fetched row grouped
/// under its day, sorted by that day; rows of one day keep the fetch order.
pub fn week_items(rows: Vec<AgendaRow>, start: &str, end: &str) -> (r: Vec<AgendaItem>)
    ensures
        exists|items: Seq<AgendaItem>|
            {
                &&& items.len() == rows@.len()
                &&& forall|k: int|
                    0 <= k < rows@.len() ==> item_matches(
                        #[trigger] items[k],
                        rows@[k],
                        start@,
                        week_day_spec(rows@[k], start@, end@),
                    )
                &&& forall|k: int|
                    0 <= k < rows@.len() && (rows@[k].scheduled_date matches Some(sd) && !str_lt(
                        sd@,
                        start@,
                    ) && !str_lt(end@, sd@)) ==> (#[trigger] items[k]).agenda_date@
                        == rows@[k].scheduled_date->0@
                &&& stably_sorted_by_date(r@, items)
            },
{
    let ghost orig = rows@;
    let mut rest = rows;
    let mut out: Vec<AgendaItem> = Vec::new();
    while rest.len() > 0
        invariant
            out@.len() + rest@.len() == orig.len(),
            rest@ == orig.subrange(out@.len() as int, orig.len() as int),
            forall|k: int|
                0 <= k < out@.len() ==> item_matches(
                    #[trigger] out@[k],
                    orig[k],
                    start@,
                    week_day_spec(orig[k], start@, end@),
                ),
        decreases rest@.len(),
    {
        let row = rest.remove(0);
        proof {
            assert(row == orig[out@.len() as int]);
        }
        out.push(week_item(row, start, end));
        proof {
            assert(rest@ =~= orig.subrange(out@.len() as int, orig.len() as int));
        }
    }
    let ghost items = out@;
    sort_by_agenda_date(out)
}

} // verus!
