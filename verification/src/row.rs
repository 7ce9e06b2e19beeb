//! One line of a decoded address: the name of a property and its value as
//! text.

use vstd::prelude::*;

verus! {

/// A property of an address and its rendered value.
#[derive(Debug, PartialEq, Eq)]
pub struct LaddrRow {
    pub property: String,
    pub value: String,
}

impl View for LaddrRow {
    type V = (Seq<char>, Seq<char>);

    open spec fn view(&self) -> (Seq<char>, Seq<char>) {
        (self.property@, self.value@)
    }
}

impl LaddrRow {
    /// The row that shows `value` under the name `property`.
    pub fn new(property: &str, value: String) -> (row: Self)
        ensures
            row@ == (property@, value@),
    {
        Self { property: property.to_owned(), value }
    }
}

/// The rows as pairs of texts, in order.
pub open spec fn row_texts(rows: Seq<LaddrRow>) -> Seq<(Seq<char>, Seq<char>)> {
    rows.map_values(|row: LaddrRow| row@)
}

} // verus!
