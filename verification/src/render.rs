//! Presentation: the task collection projected into the table that the list
//! command shows. Building the rows is the library's own logic; laying them
//! out as aligned text is left to prettytable behind one trusted call.

use vstd::prelude::*;

use crate::task::{Task, TaskView, views};

verus! {

/// A task's table row: id, title, description, and the done marker.
pub open spec fn display_row(t: TaskView) -> Seq<Seq<char>> {
    seq![
        t.id,
        t.title,
        t.description,
        if t.is_done {
            "Yes"@
        } else {
            "No"@
        },
    ]
}

/// The table rows for a collection: one per task, in the collection's order.
pub open spec fn display_rows(ts: Seq<TaskView>) -> Seq<Seq<Seq<char>>> {
    ts.map_values(|t: TaskView| display_row(t))
}

/// The table's header row.
pub open spec fn header_row() -> Seq<Seq<char>> {
    seq!["Id"@, "Title"@, "Desc"@, "Is Done"@]
}

/// What prettytable renders for the given header and rows.
pub uninterp spec fn table_render(header: Seq<Seq<char>>, rows: Seq<Seq<Seq<char>>>) -> Seq<char>;

/// Relies on prettytable's `Table`: `add_row` collects the rows in order and
/// the `Display` impl lays them out as text that depends on the cell texts
/// alone.
#[verifier::external_body]
fn render_with_prettytable(header: &Vec<String>, rows: &Vec<Vec<String>>) -> (r: String)
    ensures
        r@ == table_render(header.deep_view(), rows.deep_view()),
{
    let mut table = prettytable::Table::new();
    table.add_row(prettytable::Row::new(header.iter().map(|c| prettytable::Cell::new(c)).collect()));
    for cells in rows {
        table.add_row(prettytable::Row::new(cells.iter().map(|c| prettytable::Cell::new(c)).collect()));
    }
    format!("{}", table)
}

/// Renders the collection as the table the list command shows.
pub fn render_tasks(tasks: &Vec<Task>) -> (r: String)
    ensures
        r@ == table_render(header_row(), display_rows(views(tasks@))),
{
    let mut header: Vec<String> = Vec::new();
    header.push("Id".to_owned());
    header.push("Title".to_owned());
    header.push("Desc".to_owned());
    header.push("Is Done".to_owned());
    proof {
        assert(header.deep_view() =~= header_row());
    }
    let mut rows: Vec<Vec<String>> = Vec::new();
    let mut k: usize = 0;
    while k < tasks.len()
        invariant
            k <= tasks.len(),
            rows.deep_view() == display_rows(views(tasks@)).take(k as int),
        decreases tasks.len() - k,
    {
        let t = &tasks[k];
        let mut row: Vec<String> = Vec::new();
        row.push(t.id.clone());
        row.push(t.title.clone());
        row.push(t.description.clone());
        row.push(
            if t.is_done {
                "Yes".to_owned()
            } else {
                "No".to_owned()
            },
        );
        let ghost rows0 = rows.deep_view();
        let ghost rowv = row.deep_view();
        proof {
            assert(rowv =~= display_row(views(tasks@)[k as int]));
        }
        rows.push(row);
        proof {
            assert(rows.deep_view() =~= rows0.push(rowv));
            assert(display_rows(views(tasks@)).take((k + 1) as int) =~= rows0.push(rowv));
        }
        k += 1;
    }
    proof {
        assert(display_rows(views(tasks@)).take(tasks.len() as int) =~= display_rows(
            views(tasks@),
        ));
    }
    render_with_prettytable(&header, &rows)
}

} // verus!
