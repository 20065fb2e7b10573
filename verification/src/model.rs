//! The state of the table and what each event does to it.

use vstd::prelude::*;
use vstd::string::*;
use crate::record::{text_view, CryptoData};
use crate::selection::{cell_style, highlight_style, toggle_cell_selection, toggled, CellSelection};
use crate::sort::{sort_data, sorted_table};
use crate::text::same_text;

verus! {

/// Declares `reqwest::Error`, the failure of a fetch, as a type that is
/// carried through and never looked into.
#[verifier::external_type_specification]
#[verifier::external_body]
pub struct ExFetchError(reqwest::Error);

/// How a column's header shows the order of the table.
#[derive(Clone, Copy, Debug, PartialEq, Eq)]
pub enum SortOrder {
    Unsorted,
    Ascending,
    Descending,
}

/// An event that the table answers.
pub enum Msg {
    FetchData,
    SetData(Result<Vec<CryptoData>, reqwest::Error>),
    SortBy(String),
    ToggleCellSelection(String, String),
    ToggleAbout,
}

/// What the host does after an event: start a fetch, or draw the table
/// again.
#[derive(Clone, Copy, Debug, PartialEq, Eq)]
pub enum Command {
    Fetch,
    Render,
}

/// The table: its records, the column and direction of its order, the
/// highlighted cells, the last failure, and whether the about box shows.
pub struct Model {
    pub data: Vec<CryptoData>,
    pub error_message: Option<String>,
    pub show_about: bool,
    pub sort_by: Option<String>,
    pub sort_asc: bool,
    pub selected_cells: CellSelection,
}

/// The class of a header's marker.
pub open spec fn order_class(order: SortOrder) -> Seq<char> {
    match order {
        SortOrder::Unsorted => ""@,
        SortOrder::Ascending => "ascending"@,
        SortOrder::Descending => "descending"@,
    }
}

/// How the header of `column` shows the order: the direction if the table is
/// ordered by that column, nothing if it is not.
pub open spec fn order_shown(sort_by: Option<Seq<char>>, sort_asc: bool, column: Seq<char>) -> SortOrder {
    if sort_by == Some(column) {
        if sort_asc {
            SortOrder::Ascending
        } else {
            SortOrder::Descending
        }
    } else {
        SortOrder::Unsorted
    }
}

/// The direction after `column` is chosen: the other direction if the table
/// is ordered by that column already; else ascending for the two text
/// columns and descending for every other column.
pub open spec fn next_direction(sort_by: Option<Seq<char>>, sort_asc: bool, column: Seq<char>) -> bool {
    if sort_by == Some(column) {
        !sort_asc
    } else {
        column == "symbol"@ || column == "name"@
    }
}

/// What starts every failure message.
pub open spec fn failure_prefix() -> Seq<char> {
    "Failed to fetch data: "@
}

impl Model {
    /// `post` is `self` after the column `column` was chosen.
    pub open spec fn sorted_by(self, post: Model, column: Seq<char>) -> bool {
        &&& text_view(post.sort_by) == Some(column)
        &&& post.sort_asc == next_direction(text_view(self.sort_by), self.sort_asc, column)
        &&& post.data@ == sorted_table(self.data@, Some(column), post.sort_asc)
        &&& post.error_message == self.error_message
        &&& post.show_about == self.show_about
        &&& post.selected_cells == self.selected_cells
    }

    /// `post` is `self` after the cell was toggled.
    pub open spec fn toggled_at(self, post: Model, id: Seq<char>, column: Seq<char>) -> bool {
        &&& post.selected_cells@ == toggled(self.selected_cells@, (id, column))
        &&& post.data == self.data
        &&& post.error_message == self.error_message
        &&& post.show_about == self.show_about
        &&& post.sort_by == self.sort_by
        &&& post.sort_asc == self.sort_asc
    }

    /// `post` is `self` after the records `data` came.
    pub open spec fn loaded(self, post: Model, data: Seq<CryptoData>) -> bool {
        &&& post.data@ == sorted_table(data, text_view(self.sort_by), self.sort_asc)
        &&& post.error_message is None
        &&& post.show_about == self.show_about
        &&& post.sort_by == self.sort_by
        &&& post.sort_asc == self.sort_asc
        &&& post.selected_cells == self.selected_cells
    }

    /// `post` is `self` after a fetch failed that `description` describes.
    pub open spec fn failed(self, post: Model, description: Seq<char>) -> bool {
        &&& post.error_message is Some
        &&& post.error_message->0@ == failure_prefix() + description
        &&& post.data == self.data
        &&& post.show_about == self.show_about
        &&& post.sort_by == self.sort_by
        &&& post.sort_asc == self.sort_asc
        &&& post.selected_cells == self.selected_cells
    }

    /// `post` is `self` with the about box shown if it was hidden, and
    /// hidden if it was shown.
    pub open spec fn about_toggled(self, post: Model) -> bool {
        &&& post.show_about == !self.show_about
        &&& post.data == self.data
        &&& post.error_message == self.error_message
        &&& post.sort_by == self.sort_by
        &&& post.sort_asc == self.sort_asc
        &&& post.selected_cells == self.selected_cells
    }

    /// `post` is what the event `msg` makes of `self`, and `command` what
    /// the host is to do then.
    pub open spec fn step(self, msg: Msg, post: Model, command: Command) -> bool {
        match msg {
            Msg::FetchData => command == Command::Fetch && post == self,
            Msg::SetData(Ok(data)) => command == Command::Render && self.loaded(post, data@),
            Msg::SetData(Err(_)) => command == Command::Render && exists|description: Seq<char>|
                #[trigger] self.failed(post, description),
            Msg::SortBy(column) => command == Command::Render && self.sorted_by(post, column@),
            Msg::ToggleCellSelection(id, column) => command == Command::Render && self.toggled_at(
                post,
                id@,
                column@,
            ),
            Msg::ToggleAbout => command == Command::Render && self.about_toggled(post),
        }
    }
}

/// Calls the `Debug` formatting of `reqwest::Error`. Nothing is claimed of
/// the text that comes back.
#[verifier::external_body]
fn describe(err: &reqwest::Error) -> String {
    format!("{:?}", err)
}

impl SortOrder {
    /// The class of the header's marker.
    pub fn class(&self) -> (r: &'static str)
        ensures
            r@ == order_class(*self),
    {
        match self {
            SortOrder::Unsorted => "",
            SortOrder::Ascending => "ascending",
            SortOrder::Descending => "descending",
        }
    }
}

impl Model {
    /// The table before any data has come: empty, ordered by volume,
    /// descending.
    pub fn new() -> (m: Model)
        ensures
            m.data@ == Seq::<CryptoData>::empty(),
            m.error_message is None,
            !m.show_about,
            text_view(m.sort_by) == Some("volume24"@),
            !m.sort_asc,
            m.selected_cells@ == Set::<crate::selection::Cell>::empty(),
    {
        Model {
            data: Vec::new(),
            error_message: None,
            show_about: false,
            sort_by: Some("volume24".to_owned()),
            sort_asc: false,
            selected_cells: CellSelection::new(),
        }
    }

    /// How the header of `column` shows the order of the table.
    pub fn sort_order(&self, column: &str) -> (r: SortOrder)
        ensures
            r == order_shown(text_view(self.sort_by), self.sort_asc, column@),
    {
        match &self.sort_by {
            Some(sort_by) => {
                if same_text(sort_by.as_str(), column) {
                    if self.sort_asc {
                        SortOrder::Ascending
                    } else {
                        SortOrder::Descending
                    }
                } else {
                    SortOrder::Unsorted
                }
            },
            None => SortOrder::Unsorted,
        }
    }

    /// Orders the table by `column`: in the other direction if it is ordered
    /// by that column already, else in the column's first direction.
    pub fn handle_sort(&mut self, column: String)
        ensures
            old(self).sorted_by(*final(self), column@),
    {
        let same = match &self.sort_by {
            Some(sort_by) => same_text(sort_by.as_str(), column.as_str()),
            None => false,
        };
        if same {
            self.sort_asc = !self.sort_asc;
        } else {
            self.sort_asc = same_text(column.as_str(), "symbol") || same_text(
                column.as_str(),
                "name",
            );
            self.sort_by = Some(column);
        }
        sort_data(&mut self.data, &self.sort_by, self.sort_asc);
    }

    /// Highlights the cell if it is not highlighted, and takes the highlight
    /// off if it is.
    pub fn toggle_cell_selection(&mut self, id: String, column: String)
        ensures
            old(self).toggled_at(*final(self), id@, column@),
    {
        toggle_cell_selection(&mut self.selected_cells, id, column);
    }

    /// The style of the cell: the highlight if it is highlighted, else none.
    pub fn cell_style(&self, id: &str, column: &str) -> (style: String)
        ensures
            style@ == if self.selected_cells@.contains((id@, column@)) {
                highlight_style()
            } else {
                Seq::<char>::empty()
            },
    {
        cell_style(id, column, &self.selected_cells)
    }

    /// Takes the records of a fetch that came back: they replace the table's
    /// and are put in its order, and the last failure is forgotten.
    pub fn set_data(&mut self, data: Vec<CryptoData>)
        ensures
            old(self).loaded(*final(self), data@),
    {
        self.data = data;
        self.error_message = None;
        sort_data(&mut self.data, &self.sort_by, self.sort_asc);
    }

    /// Notes a fetch that failed, described by `description`: the message is
    /// kept, and the records and their order stay as they are.
    pub fn set_failure(&mut self, description: &str)
        ensures
            old(self).failed(*final(self), description@),
    {
        let message = "Failed to fetch data: ".to_owned().concat(description);
        self.error_message = Some(message);
    }

    /// Answers an event: changes the table as the event asks and says what
    /// the host is to do then. A fetch is only asked for, never made here;
    /// a fetch that failed leaves the records and their order as they are.
    pub fn update(&mut self, msg: Msg) -> (command: Command)
        ensures
            old(self).step(msg, *final(self), command),
    {
        match msg {
            Msg::FetchData => Command::Fetch,
            Msg::SetData(Ok(data)) => {
                self.set_data(data);
                Command::Render
            },
            Msg::SetData(Err(err)) => {
                let description = describe(&err);
                self.set_failure(description.as_str());
                Command::Render
            },
            Msg::SortBy(column) => {
                self.handle_sort(column);
                Command::Render
            },
            Msg::ToggleCellSelection(id, column) => {
                self.toggle_cell_selection(id, column);
                Command::Render
            },
            Msg::ToggleAbout => {
                self.show_about = !self.show_about;
                Command::Render
            },
        }
    }
}

} // verus!
