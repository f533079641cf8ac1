//! The table of a SQLite database that holds the local action cache: for the digest of
//! an action, what is known of its outputs.
//!
//! What is proved of the table holds for a database that nothing else writes to: the
//! contracts guard it by [`is_own`]. Whether a statement succeeds is up to SQLite.
use vstd::prelude::*;

verus! {

/// The name of the table.
pub const TABLE_NAME: &'static str = "local_action_cache";

/// Creates the table.
pub const CREATE_SQL: &'static str = "CREATE TABLE local_action_cache (
    action_digest   TEXT NOT NULL PRIMARY KEY,
    output_data     TEXT NOT NULL
)";

/// Finds the data of a digest.
pub const LOOKUP_SQL: &'static str = "SELECT output_data FROM local_action_cache WHERE action_digest = ?1";

/// Adds the data of a digest, in place of what the digest had before.
pub const INSERT_SQL: &'static str = "INSERT OR REPLACE INTO local_action_cache (action_digest, output_data) VALUES (?1, ?2)";

/// A connection of the `rusqlite` crate to a SQLite database.
#[verifier::external_type_specification]
#[verifier::external_body]
pub struct ExConnection(rusqlite::Connection);

/// An error of the `rusqlite` crate.
#[verifier::external_type_specification]
#[verifier::external_body]
pub struct ExRusqliteError(rusqlite::Error);

/// Whether the database of a connection is in memory, has no other connection, and has
/// been changed by the statements of this module alone.
pub uninterp spec fn is_own(connection: rusqlite::Connection) -> bool;

/// The tables of the database of a connection, by name, with the data of each digest.
pub uninterp spec fn tables(connection: rusqlite::Connection) -> Map<
    Seq<char>,
    Map<Seq<char>, Seq<char>>,
>;

/// Whether a text can be compared in SQL. What a comparison gives of a text with a zero
/// character is undefined.
pub open spec fn is_comparable(text: Seq<char>) -> bool {
    forall|i: int| 0 <= i < text.len() ==> #[trigger] text[i] != '\0'
}

/// The tables of an empty database.
pub open spec fn no_tables() -> Map<Seq<char>, Map<Seq<char>, Seq<char>>> {
    Map::empty()
}

/// What [`CREATE_SQL`] makes of the tables of a database.
pub open spec fn created(
    tables: Map<Seq<char>, Map<Seq<char>, Seq<char>>>,
) -> Map<Seq<char>, Map<Seq<char>, Seq<char>>> {
    tables.insert(TABLE_NAME@, Map::empty())
}

/// What [`INSERT_SQL`] makes of the tables of a database.
pub open spec fn inserted(
    tables: Map<Seq<char>, Map<Seq<char>, Seq<char>>>,
    digest: Seq<char>,
    data: Seq<char>,
) -> Map<Seq<char>, Map<Seq<char>, Seq<char>>> {
    tables.insert(TABLE_NAME@, tables[TABLE_NAME@].insert(digest, data))
}

/// What [`LOOKUP_SQL`] finds in the tables of a database.
pub open spec fn found(
    tables: Map<Seq<char>, Map<Seq<char>, Seq<char>>>,
    digest: Seq<char>,
) -> Option<Seq<char>> {
    if tables[TABLE_NAME@].contains_key(digest) {
        Some(tables[TABLE_NAME@][digest])
    } else {
        None
    }
}

/// Opens a database in memory.
///
/// `rusqlite::Connection::open_in_memory` opens a database that is empty and that no
/// other connection can reach.
#[verifier::external_body]
fn open_in_memory() -> (r: Result<rusqlite::Connection, rusqlite::Error>)
    ensures
        r matches Ok(connection) ==> is_own(connection),
        r matches Ok(connection) ==> tables(connection) == no_tables(),
{
    rusqlite::Connection::open_in_memory()
}

/// Runs a statement with its parameters.
///
/// `rusqlite::Connection::execute` runs the statement as a transaction of its own: if it
/// fails, the database is as before. [`CREATE_SQL`] succeeds only where the table does
/// not exist yet, and leaves an empty one; [`INSERT_SQL`] succeeds only where the table
/// exists. Nothing is said of the number of rows that is returned, nor of a database
/// that others write to.
#[verifier::external_body]
fn execute(connection: &mut rusqlite::Connection, sql: &str, params: &Vec<&str>) -> (r: Result<
    usize,
    rusqlite::Error,
>)
    requires
        (sql@ == CREATE_SQL@ && params@.len() == 0) || (sql@ == INSERT_SQL@ && params@.len() == 2),
    ensures
        is_own(*old(connection)) ==> is_own(*final(connection)),
        is_own(*old(connection)) && r is Err ==> tables(*final(connection)) == tables(
            *old(connection),
        ),
        is_own(*old(connection)) && r is Ok && sql@ == CREATE_SQL@ ==> !tables(
            *old(connection),
        ).contains_key(TABLE_NAME@) && tables(*final(connection)) == created(
            tables(*old(connection)),
        ),
        is_own(*old(connection)) && r is Ok && sql@ == INSERT_SQL@ && is_comparable(
            params@[0]@,
        ) ==> tables(*old(connection)).contains_key(TABLE_NAME@)
            && tables(*final(connection)) == inserted(
            tables(*old(connection)),
            params@[0]@,
            params@[1]@,
        ),
{
    connection.execute(sql, rusqlite::params_from_iter(params.iter()))
}

/// Runs a query with its parameter, and returns the first column of the first row.
///
/// `rusqlite::Connection::prepare`, `Statement::query`, `Rows::next` and `Row::get`:
/// [`LOOKUP_SQL`] has a row exactly where the table holds the digest, and its column is
/// the data. It succeeds only where the table exists.
#[verifier::external_body]
fn query_text(connection: &rusqlite::Connection, sql: &str, param: &str) -> (r: Result<
    Option<String>,
    rusqlite::Error,
>)
    requires
        sql@ == LOOKUP_SQL@,
    ensures
        is_own(*connection) && r is Ok && is_comparable(param@) ==> tables(
            *connection,
        ).contains_key(TABLE_NAME@),
        is_own(*connection) && is_comparable(param@) ==> (r matches Ok(data)
            ==> crate::bep::text_of(data) == found(tables(*connection), param@)),
{
    let mut statement = connection.prepare(sql)?;
    let mut rows = statement.query([param])?;
    match rows.next()? {
        Some(row) => Ok(Some(row.get(0)?)),
        None => Ok(None),
    }
}

/// An error of the table, with the error of SQLite.
#[derive(Debug)]
pub enum TableError {
    Open(rusqlite::Error),
    Create(rusqlite::Error),
    Lookup(rusqlite::Error),
    Insert { action_digest: String, error: rusqlite::Error },
}

/// What failed, where there is more to tell than the error of SQLite.
pub open spec fn context_of(e: TableError) -> Option<Seq<char>> {
    match e {
        TableError::Open(_) => None,
        TableError::Create(_) => Some("creating sqlite table "@ + TABLE_NAME@),
        TableError::Lookup(_) => None,
        TableError::Insert { action_digest, .. } => Some(
            "inserting `"@ + action_digest@ + "` into sqlite table "@ + TABLE_NAME@,
        ),
    }
}

impl TableError {
    /// What failed, where there is more to tell than the error of SQLite.
    pub fn context(&self) -> (text: Option<String>)
        ensures
            crate::bep::text_of(text) == context_of(*self),
    {
        match self {
            TableError::Open(_) => None,
            TableError::Create(_) => {
                let mut text = "creating sqlite table ".to_owned();
                text.append(TABLE_NAME);
                Some(text)
            },
            TableError::Lookup(_) => None,
            TableError::Insert { action_digest, .. } => {
                let mut text = "inserting `".to_owned();
                text.append(action_digest.as_str());
                text.append("` into sqlite table ");
                text.append(TABLE_NAME);
                Some(text)
            },
        }
    }
}

/// The local action cache in a SQLite database.
pub struct LocalActionCacheSqliteTable {
    connection: rusqlite::Connection,
}

impl LocalActionCacheSqliteTable {
    /// The connection that the table works on.
    pub closed spec fn conn(&self) -> rusqlite::Connection {
        self.connection
    }

    /// Whether the table alone writes to its database.
    pub open spec fn is_own(&self) -> bool {
        is_own(self.conn())
    }

    /// The tables of the database.
    pub open spec fn tables(&self) -> Map<Seq<char>, Map<Seq<char>, Seq<char>>> {
        tables(self.conn())
    }

    /// The table in the database of a connection.
    pub fn new(connection: rusqlite::Connection) -> (table: LocalActionCacheSqliteTable)
        ensures
            table.conn() == connection,
    {
        LocalActionCacheSqliteTable { connection }
    }

    /// The table in a database of its own, which does not outlive it and has no tables
    /// yet.
    pub fn in_memory() -> (r: Result<LocalActionCacheSqliteTable, TableError>)
        ensures
            match r {
                Ok(table) => table.is_own() && table.tables() == no_tables(),
                Err(e) => e is Open,
            },
    {
        match open_in_memory() {
            Ok(connection) => Ok(LocalActionCacheSqliteTable::new(connection)),
            Err(e) => Err(TableError::Open(e)),
        }
    }

    /// Lends the connection that the table works on. What is done through it is done to
    /// the database of the table.
    pub fn connection(&mut self) -> (connection: &mut rusqlite::Connection)
        ensures
            *connection == old(self).conn(),
            final(self).conn() == *final(connection),
    {
        &mut self.connection
    }

    /// Creates the table.
    pub fn create_table(&mut self) -> (r: Result<(), TableError>)
        ensures
            r matches Err(e) ==> e is Create,
            old(self).is_own() ==> final(self).is_own(),
            old(self).is_own() ==> match r {
                Ok(_) => {
                    &&& can_be_created(old(self).tables())
                    &&& final(self).tables() == created(old(self).tables())
                },
                Err(_) => final(self).tables() == old(self).tables(),
            },
    {
        let params: Vec<&str> = vec![];
        match execute(&mut self.connection, CREATE_SQL, &params) {
            Ok(_) => Ok(()),
            Err(e) => Err(TableError::Create(e)),
        }
    }

    /// The data of a digest, if the table holds any.
    pub fn lookup(&self, action_digest: &str) -> (r: Result<Option<String>, TableError>)
        ensures
            r matches Err(e) ==> e is Lookup,
            self.is_own() && is_comparable(action_digest@) && r is Ok
                ==> self.tables().contains_key(TABLE_NAME@),
            self.is_own() && is_comparable(action_digest@) ==> (r matches Ok(data)
                ==> crate::bep::text_of(data) == found(self.tables(), action_digest@)),
    {
        match query_text(&self.connection, LOOKUP_SQL, action_digest) {
            Ok(data) => Ok(data),
            Err(e) => Err(TableError::Lookup(e)),
        }
    }

    /// Adds the data of a digest, in place of what the digest had before.
    pub fn insert(&mut self, action_digest: &str, output_data: &str) -> (r: Result<(), TableError>)
        ensures
            r matches Err(e) ==> e matches TableError::Insert { action_digest: digest, .. }
                && digest@ == action_digest@,
            old(self).is_own() ==> final(self).is_own(),
            old(self).is_own() && is_comparable(action_digest@) ==> match r {
                Ok(_) => {
                    &&& old(self).tables().contains_key(TABLE_NAME@)
                    &&& final(self).tables() == inserted(
                        old(self).tables(),
                        action_digest@,
                        output_data@,
                    )
                },
                Err(_) => final(self).tables() == old(self).tables(),
            },
    {
        let params: Vec<&str> = vec![action_digest, output_data];
        match execute(&mut self.connection, INSERT_SQL, &params) {
            Ok(_) => Ok(()),
            Err(error) => Err(
                TableError::Insert { action_digest: action_digest.to_owned(), error },
            ),
        }
    }
}

// What a lookup gives back

/// A new table is empty.
pub proof fn law_new_table_is_empty(
    tables: Map<Seq<char>, Map<Seq<char>, Seq<char>>>,
    digest: Seq<char>,
)
    ensures
        found(created(tables), digest) is None,
{
}

/// A lookup gives back what was last inserted for the digest, whatever the digest had
/// before.
pub proof fn law_lookup_gives_what_was_inserted(
    tables: Map<Seq<char>, Map<Seq<char>, Seq<char>>>,
    digest: Seq<char>,
    data: Seq<char>,
)
    ensures
        found(inserted(tables, digest, data), digest) == Some(data),
{
}

/// An insertion leaves the other digests as they were.
pub proof fn law_insertion_keeps_other_digests(
    tables: Map<Seq<char>, Map<Seq<char>, Seq<char>>>,
    digest: Seq<char>,
    data: Seq<char>,
    other: Seq<char>,
)
    requires
        other != digest,
    ensures
        found(inserted(tables, digest, data), other) == found(tables, other),
{
}

/// The same insertion once more changes nothing, and a later one for the same digest
/// leaves nothing of an earlier one.
pub proof fn law_last_insertion_counts(
    tables: Map<Seq<char>, Map<Seq<char>, Seq<char>>>,
    digest: Seq<char>,
    earlier: Seq<char>,
    data: Seq<char>,
)
    ensures
        inserted(inserted(tables, digest, earlier), digest, data) == inserted(
            tables,
            digest,
            data,
        ),
        inserted(inserted(tables, digest, data), digest, data) == inserted(tables, digest, data),
{
    let rows = tables[TABLE_NAME@];
    let once = inserted(tables, digest, data);
    assert(rows.insert(digest, earlier).insert(digest, data) =~= rows.insert(digest, data));
    assert(rows.insert(digest, data).insert(digest, data) =~= rows.insert(digest, data));
    assert(inserted(inserted(tables, digest, earlier), digest, data) =~= once);
    assert(inserted(once, digest, data) =~= once);
}

/// Whether the table can be created in a database: it succeeds only where there is none.
pub open spec fn can_be_created(tables: Map<Seq<char>, Map<Seq<char>, Seq<char>>>) -> bool {
    !tables.contains_key(TABLE_NAME@)
}

/// Once the table has been created, it cannot be created again, whatever is inserted.
pub proof fn law_table_is_created_once(
    tables: Map<Seq<char>, Map<Seq<char>, Seq<char>>>,
    digest: Seq<char>,
    data: Seq<char>,
)
    ensures
        !can_be_created(created(tables)),
        !can_be_created(tables) ==> !can_be_created(inserted(tables, digest, data)),
{
}

/// What failed is told where the table cannot be created or added to, with the name of the
/// table and, for an addition, with the digest.
pub proof fn law_errors_tell_what_failed(e: TableError)
    ensures
        match e {
            TableError::Create(_) => context_of(e) == Some(
                "creating sqlite table "@ + "local_action_cache"@,
            ),
            TableError::Insert { action_digest, .. } => context_of(e) == Some(
                "inserting `"@ + action_digest@ + "` into sqlite table "@
                    + "local_action_cache"@,
            ),
            TableError::Open(_) => context_of(e) is None,
            TableError::Lookup(_) => context_of(e) is None,
        },
{
}

/// Every text without a zero character can be compared.
pub proof fn law_texts_without_zero_can_be_compared(text: Seq<char>)
    ensures
        is_comparable(text) <==> !text.contains('\0'),
{
    if is_comparable(text) && text.contains('\0') {
        let i = choose|i: int| 0 <= i < text.len() && text[i] == '\0';
        assert(text[i] != '\0');
    }
    if !text.contains('\0') {
        assert forall|i: int| 0 <= i < text.len() implies #[trigger] text[i] != '\0' by {
            assert(text.contains(text[i]));
        }
    }
}

/// The statements that are run are those whose effects are told: the table has a digest as
/// its key and never lacks data, an addition replaces what a digest had, and a lookup asks
/// for the data of one digest.
pub proof fn law_statements_are_those_whose_effects_are_told()
    ensures
        CREATE_SQL@ == "CREATE TABLE local_action_cache (
    action_digest   TEXT NOT NULL PRIMARY KEY,
    output_data     TEXT NOT NULL
)"@,
        LOOKUP_SQL@
            == "SELECT output_data FROM local_action_cache WHERE action_digest = ?1"@,
        INSERT_SQL@
            == "INSERT OR REPLACE INTO local_action_cache (action_digest, output_data) VALUES (?1, ?2)"@,
{
}

} // verus!
