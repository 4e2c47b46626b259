//! The database schema and the statements that bring a database up to it.
use vstd::prelude::*;
use crate::frequency::{freq_column_name, spec_freq_column_name, FREQ_COLUMN_COUNT};
use crate::text::{chars_of, extend_chars, string_of};

verus! {

/// The tables of the dictionary, created when missing.
pub const CREATE_TABLES_SQL: &'static str = "PRAGMA journal_mode=WAL;
         PRAGMA synchronous=NORMAL;
         CREATE TABLE IF NOT EXISTS words (
             id        INTEGER PRIMARY KEY,
             word      TEXT NOT NULL,
             word_kana TEXT NOT NULL,
             pos       TEXT,
             is_known  BOOLEAN NOT NULL DEFAULT 0
         );
         CREATE TABLE IF NOT EXISTS glosses (
             id       INTEGER PRIMARY KEY AUTOINCREMENT,
             language TEXT NOT NULL,
             meaning  TEXT NOT NULL,
             word_id  INTEGER NOT NULL,
             FOREIGN KEY (word_id) REFERENCES words(id)
         );";

/// The column that marks known words, for databases made before it existed.
pub const ADD_IS_KNOWN_SQL: &'static str = "ALTER TABLE words ADD COLUMN is_known BOOLEAN NOT NULL DEFAULT 0";

/// The indexes that lookups use.
pub const CREATE_INDEXES_SQL: &'static str = "CREATE INDEX IF NOT EXISTS idx_glosses_word_id ON glosses(word_id);
         CREATE INDEX IF NOT EXISTS idx_words_word ON words(word);";

/// One statement of the schema set-up; when it is not `required`, its
/// failure (a column that already exists) is ignored.
pub struct SchemaStep {
    pub sql: String,
    pub required: bool,
}

/// The statement that adds an integer frequency column.
pub open spec fn add_column_sql(name: Seq<char>) -> Seq<char> {
    "ALTER TABLE words ADD COLUMN "@ + name + " INTEGER NOT NULL DEFAULT 0"@
}

/// The statements that create the tables and run all migrations, in order:
/// the tables, the known-word column, one integer column per frequency
/// column, then the indexes. Running them on every start is safe: the tables
/// and indexes are created only when missing, and the failure of adding a
/// column that exists is ignored.
pub fn ensure_schema() -> (steps: Vec<SchemaStep>)
    ensures
        steps@.len() == FREQ_COLUMN_COUNT + 3,
        steps@[0].sql@ == CREATE_TABLES_SQL@ && steps@[0].required,
        steps@[1].sql@ == ADD_IS_KNOWN_SQL@ && !steps@[1].required,
        forall|k: int|
            0 <= k < FREQ_COLUMN_COUNT ==> (#[trigger] steps@[k + 2]).sql@ == add_column_sql(
                spec_freq_column_name(k),
            ) && !steps@[k + 2].required,
        steps@[FREQ_COLUMN_COUNT + 2].sql@ == CREATE_INDEXES_SQL@
            && steps@[FREQ_COLUMN_COUNT + 2].required,
{
    let mut steps: Vec<SchemaStep> = Vec::new();
    steps.push(SchemaStep { sql: CREATE_TABLES_SQL.to_string(), required: true });
    steps.push(SchemaStep { sql: ADD_IS_KNOWN_SQL.to_string(), required: false });
    let prefix = chars_of("ALTER TABLE words ADD COLUMN ");
    let suffix = chars_of(" INTEGER NOT NULL DEFAULT 0");
    for k in 0..FREQ_COLUMN_COUNT
        invariant
            prefix@ == "ALTER TABLE words ADD COLUMN "@,
            suffix@ == " INTEGER NOT NULL DEFAULT 0"@,
            steps@.len() == k + 2,
            steps@[0].sql@ == CREATE_TABLES_SQL@ && steps@[0].required,
            steps@[1].sql@ == ADD_IS_KNOWN_SQL@ && !steps@[1].required,
            forall|j: int|
                0 <= j < k ==> (#[trigger] steps@[j + 2]).sql@ == add_column_sql(
                    spec_freq_column_name(j),
                ) && !steps@[j + 2].required,
    {
        let mut sql = Vec::new();
        extend_chars(&mut sql, &prefix);
        extend_chars(&mut sql, &chars_of(freq_column_name(k)));
        extend_chars(&mut sql, &suffix);
        steps.push(SchemaStep { sql: string_of(&sql), required: false });
        assert(steps@[k + 2].sql@ == add_column_sql(spec_freq_column_name(k as int)));
    }
    steps.push(SchemaStep { sql: CREATE_INDEXES_SQL.to_string(), required: true });
    steps
}

} // verus!
