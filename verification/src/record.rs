//! Game records and the columns of a sales table that they are read from.

use vstd::prelude::*;
use crate::model::RecordView;

verus! {

/// The column of a row that holds the name of the game.
pub const NAME_COLUMN: usize = 0;

/// The column of a row that holds the genre.
pub const GENRE_COLUMN: usize = 3;

/// The column of a row that holds the publisher.
pub const PUBLISHER_COLUMN: usize = 4;

/// The column of a row that holds the critics' score.
pub const CRITIC_SCORE_COLUMN: usize = 6;

/// The column of a row that holds the users' score.
pub const USER_SCORE_COLUMN: usize = 7;

/// What the graph reads of a game: its name, which identifies it, and the
/// genre and publisher by which games are compared.
pub struct GameRecord {
    pub name: String,
    pub genre: String,
    pub publisher: String,
}

impl View for GameRecord {
    type V = RecordView;

    open spec fn view(&self) -> RecordView {
        RecordView { name: self.name@, genre: self.genre@, publisher: self.publisher@ }
    }
}

/// What each of the records says.
pub open spec fn record_views(records: Seq<GameRecord>) -> Seq<RecordView> {
    Seq::new(records.len(), |i: int| records[i]@)
}

/// The text of each field of a row.
pub open spec fn field_texts(fields: Seq<String>) -> Seq<Seq<char>> {
    Seq::new(fields.len(), |i: int| fields[i]@)
}

/// The text in column `i` of a row, empty where the row is too short.
pub open spec fn column(fields: Seq<Seq<char>>, i: int) -> Seq<char> {
    if 0 <= i < fields.len() {
        fields[i]
    } else {
        Seq::empty()
    }
}

/// The record that a row of a sales table stands for.
pub open spec fn record_of_row(fields: Seq<Seq<char>>) -> RecordView {
    RecordView {
        name: column(fields, NAME_COLUMN as int),
        genre: column(fields, GENRE_COLUMN as int),
        publisher: column(fields, PUBLISHER_COLUMN as int),
    }
}

/// A copy of the field in column `i`, empty where the row is too short.
fn field_at(fields: &Vec<String>, i: usize) -> (text: String)
    ensures
        text@ == column(field_texts(fields@), i as int),
{
    if i < fields.len() {
        fields[i].clone()
    } else {
        String::new()
    }
}

impl GameRecord {
    /// A record of the given name, genre and publisher.
    pub fn new(name: &str, genre: &str, publisher: &str) -> (record: GameRecord)
        ensures
            record@ == (RecordView { name: name@, genre: genre@, publisher: publisher@ }),
    {
        GameRecord {
            name: name.to_owned(),
            genre: genre.to_owned(),
            publisher: publisher.to_owned(),
        }
    }

    /// The record that a row of fields stands for: name, genre and
    /// publisher are taken from their columns, and a column that the row
    /// lacks reads as the empty text.
    pub fn fromFields(fields: &Vec<String>) -> (record: GameRecord)
        ensures
            record@ == record_of_row(field_texts(fields@)),
    {
        GameRecord {
            name: field_at(fields, NAME_COLUMN),
            genre: field_at(fields, GENRE_COLUMN),
            publisher: field_at(fields, PUBLISHER_COLUMN),
        }
    }
}

} // verus!
