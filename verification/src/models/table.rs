use vstd::prelude::*;

verus! {

/// The mathematical value of a [`Table`].
pub struct TableView {
    pub headers: Seq<Seq<char>>,
    pub rows: Seq<Seq<Seq<char>>>,
}

/// A table of text: one row of headers, then rows of cells.
#[derive(Debug)]
pub struct Table {
    pub headers: Vec<String>,
    pub rows: Vec<Vec<String>>,
}

impl View for Table {
    type V = TableView;

    open spec fn view(&self) -> TableView {
        TableView { headers: self.headers.deep_view(), rows: self.rows.deep_view() }
    }
}

impl Table {
    pub fn new(headers: Vec<String>, rows: Vec<Vec<String>>) -> (table: Self)
        ensures
            table.headers == headers,
            table.rows == rows,
            table@.headers == headers.deep_view(),
            table@.rows == rows.deep_view(),
    {
        Table { headers, rows }
    }
}

} // verus!
