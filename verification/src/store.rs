use vstd::prelude::*;

use crate::codec::concat_payloads;
use crate::codec::decode;
use crate::codec::encode_batch;
use crate::codec::spec_decode;
use crate::codec::CellEdit;
use crate::codec::DecodeError;
use crate::codec::EditModel;
use crate::codec::ErrModel;
use crate::text::str_eq;
use vstd::string::StringExecFns;

verus! {

/// A cell write that cannot be applied.
#[derive(Clone, Copy, PartialEq, Eq, Structural, Debug)]
pub enum StoreError {
    /// The sheet the batch addresses does not exist.
    MissingSheet,
}

/// An update-log operation that cannot be performed.
#[derive(Clone, Copy, PartialEq, Eq, Structural, Debug)]
pub enum LogError {
    /// The sheet the entry or query addresses does not exist.
    MissingSheet,
    /// Every sequence id has been handed out.
    SequenceExhausted,
}

/// A registration that cannot be accepted.
#[derive(Clone, Copy, PartialEq, Eq, Structural, Debug)]
pub enum RegisterError {
    UsernameTaken,
    IdTaken,
}

/// Who submitted an edit batch: the sheet's owner or a consumer. The two
/// roles see independent, non-overlapping update streams of the same sheet.
#[derive(Clone, Copy, PartialEq, Eq, Structural, Hash, Debug)]
pub enum Ownership {
    Publisher,
    Subscriber,
}

/// A registered account that can own sheets. The secret is kept only as a
/// salted hash computed by the caller, never as the plain secret.
pub struct Publisher {
    pub id: u128,
    pub username: String,
    pub secret_hash: String,
}

/// A named grid owned by one publisher (through the relation table).
pub struct Sheet {
    pub id: u128,
    pub title: String,
}

/// One row of the publisher-to-sheet ownership relation.
#[derive(Clone, Copy)]
pub struct Relation {
    pub publisher_id: u128,
    pub sheet_id: u128,
}

/// One live cell: at most one per (sheet, column, row) coordinate.
pub struct Cell {
    pub sheet_id: u128,
    pub column: char,
    pub row: i32,
    pub value: String,
}

/// One immutable entry of the append-only update log.
#[derive(PartialEq, Debug)]
pub struct Update {
    pub seq: u64,
    pub sheet_id: u128,
    pub owner_id: u128,
    pub ownership: Ownership,
    pub payload: String,
}

impl Update {
    /// A field-for-field copy of this entry.
    pub fn duplicate(&self) -> (r: Update)
        ensures
            r == *self,
    {
        Update {
            seq: self.seq,
            sheet_id: self.sheet_id,
            owner_id: self.owner_id,
            ownership: self.ownership,
            payload: self.payload.clone(),
        }
    }
}

/// The coordinate a cell lives at.
pub open spec fn cell_key(c: Cell) -> (u128, char, int) {
    (c.sheet_id, c.column, c.row as int)
}

/// The grid a cell table denotes: the finite map from coordinates to values,
/// later rows shadowing earlier ones (the invariant keeps keys unique, so
/// nothing is ever shadowed in a well-formed store).
pub open spec fn cells_map(cs: Seq<Cell>) -> Map<(u128, char, int), Seq<char>>
    decreases cs.len(),
{
    if cs.len() == 0 {
        Map::empty()
    } else {
        cells_map(cs.drop_last()).insert(cell_key(cs.last()), cs.last().value@)
    }
}

/// No two rows of a cell table share a coordinate.
pub open spec fn cells_unique(cs: Seq<Cell>) -> bool {
    forall|i: int, j: int|
        0 <= i < j < cs.len() ==> cell_key(#[trigger] cs[i]) != cell_key(#[trigger] cs[j])
}

/// How many rows of a cell table sit at coordinate `k`: one or zero in a
/// well-formed store.
pub open spec fn count_at(cs: Seq<Cell>, k: (u128, char, int)) -> int {
    cs.filter(|c: Cell| cell_key(c) == k).len() as int
}

/// How many cells a sheet holds.
pub open spec fn sheet_count(cs: Seq<Cell>, sid: u128) -> int {
    cs.filter(|c: Cell| c.sheet_id == sid).len() as int
}

/// The whole backing state: publishers, sheets, their ownership relation,
/// the live cells, and the append-only update log with its next sequence id.
pub struct Store {
    pub publishers: Vec<Publisher>,
    pub sheets: Vec<Sheet>,
    pub relations: Vec<Relation>,
    pub cells: Vec<Cell>,
    pub updates: Vec<Update>,
    pub next_seq: u64,
}

impl Store {
    pub open spec fn usernames_unique(self) -> bool {
        forall|i: int, j: int|
            0 <= i < j < self.publishers@.len() ==> (#[trigger] self.publishers@[i]).username@ != (
            #[trigger] self.publishers@[j]).username@
    }

    pub open spec fn publisher_ids_unique(self) -> bool {
        forall|i: int, j: int|
            0 <= i < j < self.publishers@.len() ==> (#[trigger] self.publishers@[i]).id != (
            #[trigger] self.publishers@[j]).id
    }

    pub open spec fn sheet_ids_unique(self) -> bool {
        forall|i: int, j: int|
            0 <= i < j < self.sheets@.len() ==> (#[trigger] self.sheets@[i]).id != (
            #[trigger] self.sheets@[j]).id
    }

    /// The relation is many-to-many in shape but populated one-to-one: each
    /// sheet has exactly one relation row, so at most one owner.
    pub open spec fn relations_unique(self) -> bool {
        forall|i: int, j: int|
            0 <= i < j < self.relations@.len() ==> (#[trigger] self.relations@[i]).sheet_id != (
            #[trigger] self.relations@[j]).sheet_id
    }

    /// The log is strictly ascending in sequence id, so entries are unique
    /// and already sorted for replay.
    pub open spec fn log_sorted(self) -> bool {
        forall|i: int, j: int|
            0 <= i < j < self.updates@.len() ==> (#[trigger] self.updates@[i]).seq < (
            #[trigger] self.updates@[j]).seq
    }

    /// Every assigned sequence id is below the allocator's next one.
    pub open spec fn log_bounded(self) -> bool {
        forall|i: int|
            0 <= i < self.updates@.len() ==> (#[trigger] self.updates@[i]).seq < self.next_seq
    }

    /// Every relation row points at a sheet that still exists: the cascade
    /// in delete keeps the two tables in step.
    pub open spec fn relations_reference_sheets(self) -> bool {
        forall|i: int|
            0 <= i < self.relations@.len() ==> self.has_sheet(
                (#[trigger] self.relations@[i]).sheet_id,
            )
    }

    /// Well-formedness: all the table invariants at once. Constructors
    /// establish it and every operation preserves it.
    pub open spec fn wf(self) -> bool {
        &&& self.usernames_unique()
        &&& self.publisher_ids_unique()
        &&& self.sheet_ids_unique()
        &&& self.relations_unique()
        &&& self.relations_reference_sheets()
        &&& cells_unique(self.cells@)
        &&& self.log_sorted()
        &&& self.log_bounded()
        &&& self.next_seq >= 1
    }

    pub open spec fn has_sheet(self, sid: u128) -> bool {
        exists|i: int| 0 <= i < self.sheets@.len() && (#[trigger] self.sheets@[i]).id == sid
    }

    pub open spec fn has_username(self, u: Seq<char>) -> bool {
        exists|i: int|
            0 <= i < self.publishers@.len() && (#[trigger] self.publishers@[i]).username@ == u
    }

    pub open spec fn has_publisher_id(self, id: u128) -> bool {
        exists|i: int| 0 <= i < self.publishers@.len() && (#[trigger] self.publishers@[i]).id == id
    }

    /// The id of the publisher with the given username.
    pub open spec fn owner_id_of(self, u: Seq<char>) -> u128
        recommends
            self.has_username(u),
    {
        self.publishers@[choose|i: int|
            0 <= i < self.publishers@.len() && (#[trigger] self.publishers@[i]).username@ == u].id
    }

    pub open spec fn cells_view(self) -> Map<(u128, char, int), Seq<char>> {
        cells_map(self.cells@)
    }

    /// An empty store: no accounts, no sheets, sequence ids start at one.
    pub fn new() -> (r: Store)
        ensures
            r.wf(),
            r.publishers@.len() == 0,
            r.sheets@.len() == 0,
            r.relations@.len() == 0,
            r.cells@.len() == 0,
            r.updates@.len() == 0,
            r.next_seq == 1,
    {
        Store {
            publishers: Vec::new(),
            sheets: Vec::new(),
            relations: Vec::new(),
            cells: Vec::new(),
            updates: Vec::new(),
            next_seq: 1,
        }
    }
}

/// A coordinate occurs in the grid map exactly when some row sits at it, and
/// the map then carries that row's value.
pub proof fn lemma_cells_map_dom(cs: Seq<Cell>, k: (u128, char, int))
    ensures
        cells_map(cs).contains_key(k) <==> (exists|i: int|
            0 <= i < cs.len() && cell_key(#[trigger] cs[i]) == k),
        forall|i: int|
            0 <= i < cs.len() && cell_key(#[trigger] cs[i]) == k && cells_unique(cs) ==> cs[i].value@
                == cells_map(cs)[k],
    decreases cs.len(),
{
    if cs.len() > 0 {
        lemma_cells_map_dom(cs.drop_last(), k);
        if cells_unique(cs) {
            assert(cells_unique(cs.drop_last()));
            assert forall|i: int|
                0 <= i < cs.len() && cell_key(#[trigger] cs[i]) == k implies cs[i].value@
                == cells_map(cs)[k] by {
                if cell_key(cs.last()) == k {
                    assert(i == cs.len() - 1);
                } else {
                    assert(cs.drop_last()[i] == cs[i]);
                }
            }
        }
        if cells_map(cs).contains_key(k) {
            if cell_key(cs.last()) == k {
                assert(cell_key(cs[cs.len() - 1]) == k);
            } else {
                let i = choose|i: int|
                    0 <= i < cs.drop_last().len() && cell_key(#[trigger] cs.drop_last()[i]) == k;
                assert(cell_key(cs[i]) == k);
            }
        } else {
            assert forall|i: int| 0 <= i < cs.len() implies cell_key(#[trigger] cs[i]) != k by {
                if i < cs.len() - 1 {
                    assert(cs.drop_last()[i] == cs[i]);
                }
            }
        }
    }
}

/// A well-formed grid holds exactly one row at a coordinate in its map, and
/// none at any other coordinate.
pub proof fn lemma_count_at(cs: Seq<Cell>, k: (u128, char, int))
    requires
        cells_unique(cs),
    ensures
        count_at(cs, k) == if cells_map(cs).contains_key(k) {
            1int
        } else {
            0int
        },
    decreases cs.len(),
{
    reveal(Seq::filter);
    lemma_cells_map_dom(cs, k);
    if cs.len() > 0 {
        assert(cells_unique(cs.drop_last()));
        lemma_count_at(cs.drop_last(), k);
        lemma_cells_map_dom(cs.drop_last(), k);
        if cell_key(cs.last()) == k {
            assert forall|i: int| 0 <= i < cs.drop_last().len() implies cell_key(
                #[trigger] cs.drop_last()[i],
            ) != k by {
                assert(cs.drop_last()[i] == cs[i]);
                assert(cell_key(cs[i]) != cell_key(cs[cs.len() - 1]));
            }
        }
    }
}

/// Replacing a row with one at the same coordinate rewrites the map entry
/// in place.
proof fn lemma_cells_map_update(cs: Seq<Cell>, j: int, c: Cell)
    requires
        cells_unique(cs),
        0 <= j < cs.len(),
        cell_key(c) == cell_key(cs[j]),
    ensures
        cells_map(cs.update(j, c)) =~= cells_map(cs).insert(cell_key(c), c.value@),
    decreases cs.len(),
{
    let k = cell_key(c);
    if j == cs.len() - 1 {
        assert(cs.update(j, c).drop_last() =~= cs.drop_last());
        assert(cs.update(j, c).last() == c);
    } else {
        assert(cells_unique(cs.drop_last()));
        assert(cs.update(j, c).drop_last() =~= cs.drop_last().update(j, c));
        assert(cs.drop_last()[j] == cs[j]);
        lemma_cells_map_update(cs.drop_last(), j, c);
        assert(cs.update(j, c).last() == cs.last());
        // the last row keeps its own key, which differs from `k`
        assert(cell_key(cs[cs.len() - 1]) != k);
    }
}

/// How a filtered count changes when one row is replaced by another that
/// the predicate treats the same way.
proof fn lemma_filter_len_update(cs: Seq<Cell>, j: int, c: Cell, pred: spec_fn(Cell) -> bool)
    requires
        0 <= j < cs.len(),
        pred(c) == pred(cs[j]),
    ensures
        cs.update(j, c).filter(pred).len() == cs.filter(pred).len(),
    decreases cs.len(),
{
    reveal(Seq::filter);
    if j == cs.len() - 1 {
        assert(cs.update(j, c).drop_last() =~= cs.drop_last());
        assert(cs.update(j, c).last() == c);
    } else {
        assert(cs.update(j, c).drop_last() =~= cs.drop_last().update(j, c));
        assert(cs.drop_last()[j] == cs[j]);
        lemma_filter_len_update(cs.drop_last(), j, c, pred);
        assert(cs.update(j, c).last() == cs.last());
    }
}

impl Store {
    /// The position of the cell at a coordinate, if one exists.
    fn find_cell_at(&self, sheet_id: u128, column: char, row: i32) -> (r: Option<usize>)
        ensures
            match r {
                Some(j) => j < self.cells@.len() && cell_key(self.cells@[j as int]) == (
                    sheet_id,
                    column,
                    row as int,
                ),
                None => forall|t: int|
                    0 <= t < self.cells@.len() ==> cell_key(#[trigger] self.cells@[t]) != (
                    sheet_id,
                    column,
                    row as int,
                    ),
            },
    {
        let n = self.cells.len();
        for idx in 0..n
            invariant
                n == self.cells@.len(),
                forall|t: int|
                    0 <= t < idx ==> cell_key(#[trigger] self.cells@[t]) != (
                    sheet_id,
                    column,
                    row as int,
                    ),
        {
            let c = &self.cells[idx];
            if c.sheet_id == sheet_id && c.column == column && c.row == row {
                return Some(idx);
            }
        }
        None
    }

    /// Writes one edit into the grid: overwrites the value if a cell already
    /// sits at the coordinate, creates the cell otherwise.
    fn upsert_cell(&mut self, sheet_id: u128, e: &CellEdit)
        requires
            old(self).wf(),
        ensures
            final(self).wf(),
            final(self).cells_view() == old(self).cells_view().insert(
                (sheet_id, e.column, e.row as int),
                e.value@,
            ),
            old(self).cells_view().contains_key((sheet_id, e.column, e.row as int)) ==> (
            final(self).cells@.len() == old(self).cells@.len() && forall|s2: u128|
                sheet_count(final(self).cells@, s2) == sheet_count(old(self).cells@, s2)),
            !old(self).cells_view().contains_key((sheet_id, e.column, e.row as int)) ==> (
            final(self).cells@.len() == old(self).cells@.len() + 1 && forall|s2: u128|
                sheet_count(final(self).cells@, s2) == sheet_count(old(self).cells@, s2) + if s2
                    == sheet_id {
                    1int
                } else {
                    0int
                }),
            final(self).publishers == old(self).publishers,
            final(self).sheets == old(self).sheets,
            final(self).relations == old(self).relations,
            final(self).updates == old(self).updates,
            final(self).next_seq == old(self).next_seq,
    {
        let ghost k = (sheet_id, e.column, e.row as int);
        let slot = self.find_cell_at(sheet_id, e.column, e.row);
        proof {
            lemma_cells_map_dom(old(self).cells@, k);
        }
        if let Some(idx) = slot {
            let cell = Cell {
                sheet_id,
                column: e.column,
                row: e.row,
                value: e.value.clone(),
            };
            let ghost pre = self.cells@;
            let ghost gcell = cell;
            proof {
                lemma_cells_map_update(pre, idx as int, gcell);
            }
            self.cells[idx] = cell;
            proof {
                assert forall|s2: u128|
                    sheet_count(self.cells@, s2) == sheet_count(
                        old(self).cells@,
                        s2,
                    ) by {
                    lemma_filter_len_update(pre, idx as int, gcell, (|c: Cell| c.sheet_id == s2));
                }
                assert forall|i: int, j: int|
                    0 <= i < j < self.cells@.len() implies cell_key(#[trigger] self.cells@[i])
                    != cell_key(#[trigger] self.cells@[j]) by {
                    assert(cell_key(pre[i]) != cell_key(pre[j]));
                }
            }
        } else {
            let cell = Cell {
                sheet_id,
                column: e.column,
                row: e.row,
                value: e.value.clone(),
            };
            let ghost pre = self.cells@;
            self.cells.push(cell);
            proof {
                assert(self.cells@.drop_last() =~= pre);
                reveal(Seq::filter);
                assert(!old(self).cells_view().contains_key(k));
                assert forall|s2: u128|
                    sheet_count(self.cells@, s2) == sheet_count(old(self).cells@, s2) + (if s2
                        == sheet_id {
                        1int
                    } else {
                        0int
                    }) by {
                    assert(self.cells@.drop_last() =~= pre);
                }
                assert forall|i: int, j: int|
                    0 <= i < j < self.cells@.len() implies cell_key(#[trigger] self.cells@[i])
                    != cell_key(#[trigger] self.cells@[j]) by {
                    if j < self.cells@.len() - 1 {
                        assert(cell_key(pre[i]) != cell_key(pre[j]));
                    } else {
                        assert(cell_key(pre[i]) != k);
                    }
                }
            }
        }
        proof {
            assert forall|i: int| 0 <= i < self.relations@.len() implies self.has_sheet(
                (#[trigger] self.relations@[i]).sheet_id,
            ) by {
                assert(old(self).has_sheet(old(self).relations@[i].sheet_id));
                let w = choose|w: int|
                    0 <= w < old(self).sheets@.len() && old(self).sheets@[w].id == old(self).relations@[i].sheet_id;
                assert(self.sheets@[w].id == self.relations@[i].sheet_id);
            }
        }
    }
}

/// Applying a list of edits to a grid map: each edit in turn writes its
/// value at its coordinate, later edits shadowing earlier ones.
pub open spec fn apply_edits_map(
    m: Map<(u128, char, int), Seq<char>>,
    sid: u128,
    es: Seq<EditModel>,
) -> Map<(u128, char, int), Seq<char>>
    decreases es.len(),
{
    if es.len() == 0 {
        m
    } else {
        apply_edits_map(m.insert((sid, es[0].col, es[0].row), es[0].val), sid, es.drop_first())
    }
}

/// The entries the log hands a reader: same sheet, same role, sequence id
/// strictly greater than the cursor.
pub open spec fn update_pred(sid: u128, o: Ownership, cursor: u64) -> spec_fn(Update) -> bool {
    |u: Update| u.sheet_id == sid && u.ownership == o && u.seq > cursor
}

pub open spec fn updates_after(us: Seq<Update>, sid: u128, o: Ownership, cursor: u64) -> Seq<
    Update,
> {
    us.filter(update_pred(sid, o, cursor))
}

impl Store {
    /// Whether a relation row ties this sheet to this publisher.
    pub open spec fn owned_by(self, sid: u128, owner: u128) -> bool {
        exists|i: int|
            0 <= i < self.relations@.len() && (#[trigger] self.relations@[i]).sheet_id == sid && (
            self.relations@[i]).publisher_id == owner
    }

    pub open spec fn sheet_matches(self, s: Sheet, owner: u128, t: Seq<char>) -> bool {
        s.title@ == t && self.owned_by(s.id, owner)
    }

    /// The ids of the sheets with this owner and title, in table order.
    /// Titles are not unique per owner, so this may hold several ids.
    pub open spec fn matching_ids(self, owner: u128, t: Seq<char>) -> Seq<u128> {
        self.sheets@.filter(|s: Sheet| self.sheet_matches(s, owner, t)).map_values(
            |s: Sheet| s.id,
        )
    }

    /// Registers a new account. The caller passes a freshly drawn id and
    /// the salted hash of the secret; the plain secret is never stored.
    pub fn register_publisher(&mut self, id: u128, username: &str, secret_hash: &str) -> (r:
        Result<(), RegisterError>)
        requires
            old(self).wf(),
        ensures
            final(self).wf(),
            match r {
                Ok(_) => !old(self).has_username(username@) && !old(self).has_publisher_id(id)
                    && final(self).publishers@.len() == old(self).publishers@.len() + 1 && final(self).publishers@.drop_last() == old(self).publishers@ && final(self).publishers@.last().id == id && final(self).publishers@.last().username@
                    == username@ && final(self).publishers@.last().secret_hash@ == secret_hash@,
                Err(RegisterError::UsernameTaken) => old(self).has_username(username@) && final(self).publishers == old(self).publishers,
                Err(RegisterError::IdTaken) => !old(self).has_username(username@) && old(self).has_publisher_id(id) && final(self).publishers == old(self).publishers,
            },
            final(self).sheets == old(self).sheets,
            final(self).relations == old(self).relations,
            final(self).cells == old(self).cells,
            final(self).updates == old(self).updates,
            final(self).next_seq == old(self).next_seq,
    {
        let n = self.publishers.len();
        for i in 0..n
            invariant
                *self == *old(self),
                old(self).wf(),
                n == self.publishers@.len(),
                forall|t: int|
                    0 <= t < i ==> (#[trigger] self.publishers@[t]).username@ != username@,
        {
            if str_eq(self.publishers[i].username.as_str(), username) {
                return Err(RegisterError::UsernameTaken);
            }
        }
        for i in 0..n
            invariant
                *self == *old(self),
                old(self).wf(),
                n == self.publishers@.len(),
                !old(self).has_username(username@),
                forall|t: int| 0 <= t < i ==> (#[trigger] self.publishers@[t]).id != id,
        {
            if self.publishers[i].id == id {
                return Err(RegisterError::IdTaken);
            }
        }
        let ghost pre = self.publishers@;
        self.publishers.push(
            Publisher {
                id,
                username: String::from_str(username),
                secret_hash: String::from_str(secret_hash),
            },
        );
        proof {
            assert(self.publishers@.drop_last() =~= pre);
            assert forall|i: int, j: int| 0 <= i < j < self.publishers@.len() implies (
            #[trigger] self.publishers@[i]).username@ != (
            #[trigger] self.publishers@[j]).username@ by {
            }
            assert forall|i: int, j: int| 0 <= i < j < self.publishers@.len() implies (
            #[trigger] self.publishers@[i]).id != (#[trigger] self.publishers@[j]).id by {}
            assert forall|i: int| 0 <= i < self.relations@.len() implies self.has_sheet(
                (#[trigger] self.relations@[i]).sheet_id,
            ) by {
                assert(old(self).has_sheet(old(self).relations@[i].sheet_id));
                let w = choose|w: int|
                    0 <= w < old(self).sheets@.len() && old(self).sheets@[w].id == old(self).relations@[i].sheet_id;
                assert(self.sheets@[w].id == self.relations@[i].sheet_id);
            }
        }
        Ok(())
    }

    /// The id of the publisher registered under this username, if any.
    pub fn publisher_id_of(&self, username: &str) -> (r: Option<u128>)
        requires
            self.wf(),
        ensures
            match r {
                Some(pid) => self.has_username(username@) && pid == self.owner_id_of(username@),
                None => !self.has_username(username@),
            },
    {
        let n = self.publishers.len();
        for i in 0..n
            invariant
                n == self.publishers@.len(),
                self.wf(),
                forall|t: int|
                    0 <= t < i ==> (#[trigger] self.publishers@[t]).username@ != username@,
        {
            if str_eq(self.publishers[i].username.as_str(), username) {
                proof {
                    let j = choose|j: int|
                        0 <= j < self.publishers@.len() && (
                        #[trigger] self.publishers@[j]).username@ == username@;
                    assert(j == i as int);
                }
                return Some(self.publishers[i].id);
            }
        }
        None
    }

    /// Whether an account with this username carries exactly this secret
    /// hash: the credential check behind every authorized route.
    pub fn verify_credentials(&self, username: &str, secret_hash: &str) -> (r: bool)
        ensures
            r == exists|i: int|
                0 <= i < self.publishers@.len() && (#[trigger] self.publishers@[i]).username@
                    == username@ && (self.publishers@[i]).secret_hash@ == secret_hash@,
    {
        let n = self.publishers.len();
        for i in 0..n
            invariant
                n == self.publishers@.len(),
                forall|t: int|
                    0 <= t < i ==> !((#[trigger] self.publishers@[t]).username@ == username@ && (
                    self.publishers@[t]).secret_hash@ == secret_hash@),
        {
            if str_eq(self.publishers[i].username.as_str(), username) && str_eq(
                self.publishers[i].secret_hash.as_str(),
                secret_hash,
            ) {
                return true;
            }
        }
        false
    }

    /// Whether a sheet with this id exists.
    pub fn sheet_exists(&self, sid: u128) -> (r: bool)
        ensures
            r == self.has_sheet(sid),
    {
        let n = self.sheets.len();
        for i in 0..n
            invariant
                n == self.sheets@.len(),
                forall|t: int| 0 <= t < i ==> (#[trigger] self.sheets@[t]).id != sid,
        {
            if self.sheets[i].id == sid {
                return true;
            }
        }
        false
    }

    /// Whether a relation row ties this sheet to this publisher.
    fn relation_exists(&self, sid: u128, owner: u128) -> (r: bool)
        ensures
            r == self.owned_by(sid, owner),
    {
        let n = self.relations.len();
        for i in 0..n
            invariant
                n == self.relations@.len(),
                forall|t: int|
                    0 <= t < i ==> !((#[trigger] self.relations@[t]).sheet_id == sid && (
                    self.relations@[t]).publisher_id == owner),
        {
            if self.relations[i].sheet_id == sid && self.relations[i].publisher_id == owner {
                return true;
            }
        }
        false
    }

    /// The ids of this owner's sheets with this title, in table order:
    /// zero, one or more, the caller decides what several matches mean.
    pub fn find_by_owner_and_title(&self, owner: u128, title: &str) -> (r: Vec<u128>)
        ensures
            r@ == self.matching_ids(owner, title@),
    {
        let ghost pred = |s: Sheet| self.sheet_matches(s, owner, title@);
        let mut r: Vec<u128> = Vec::new();
        let n = self.sheets.len();
        proof {
            reveal(Seq::filter);
        }
        for i in 0..n
            invariant
                n == self.sheets@.len(),
                pred == (|s: Sheet| self.sheet_matches(s, owner, title@)),
                r@ == self.sheets@.take(i as int).filter(pred).map_values(|s: Sheet| s.id),
        {
            proof {
                reveal(Seq::filter);
                assert(self.sheets@.take(i + 1).drop_last() == self.sheets@.take(i as int));
                assert(self.sheets@.take(i + 1).last() == self.sheets@[i as int]);
            }
            let s = &self.sheets[i];
            if str_eq(s.title.as_str(), title) && self.relation_exists(s.id, owner) {
                r.push(s.id);
                proof {
                    let q = self.sheets@.take(i as int).filter(pred);
                    assert(q.push(self.sheets@[i as int]).map_values(|s: Sheet| s.id)
                        =~= q.map_values(|s: Sheet| s.id).push(self.sheets@[i as int].id));
                }
            }
        }
        proof {
            assert(self.sheets@.take(n as int) == self.sheets@);
        }
        r
    }

    /// Writes one edit into an existing sheet's grid, creating or
    /// overwriting the cell at its coordinate.
    pub fn apply_edit(&mut self, sheet_id: u128, e: &CellEdit) -> (r: Result<(), StoreError>)
        requires
            old(self).wf(),
        ensures
            final(self).wf(),
            match r {
                Ok(_) => old(self).has_sheet(sheet_id) && final(self).cells_view() == old(self).cells_view().insert((sheet_id, e.column, e.row as int), e.value@) && (old(self).cells_view().contains_key((sheet_id, e.column, e.row as int)) ==> (final(self).cells@.len() == old(self).cells@.len() && forall|s2: u128|
                    sheet_count(final(self).cells@, s2) == sheet_count(old(self).cells@, s2)))
                    && (!old(self).cells_view().contains_key((sheet_id, e.column, e.row as int))
                    ==> (final(self).cells@.len() == old(self).cells@.len() + 1 && forall|
                    s2: u128,
                |
                    sheet_count(final(self).cells@, s2) == sheet_count(old(self).cells@, s2) + if s2
                        == sheet_id {
                        1int
                    } else {
                        0int
                    })),
                Err(StoreError::MissingSheet) => !old(self).has_sheet(sheet_id) && final(self).cells == old(self).cells,
            },
            final(self).publishers == old(self).publishers,
            final(self).sheets == old(self).sheets,
            final(self).relations == old(self).relations,
            final(self).updates == old(self).updates,
            final(self).next_seq == old(self).next_seq,
    {
        if !self.sheet_exists(sheet_id) {
            return Err(StoreError::MissingSheet);
        }
        self.upsert_cell(sheet_id, e);
        Ok(())
    }

    /// Applies a decoded batch to an existing sheet with upsert semantics:
    /// every edit lands, in order, or the whole batch is refused. Returns
    /// how many edits were applied.
    pub fn apply_batch(&mut self, sheet_id: u128, edits: &Vec<CellEdit>) -> (r: Result<
        usize,
        StoreError,
    >)
        requires
            old(self).wf(),
        ensures
            final(self).wf(),
            match r {
                Ok(n) => old(self).has_sheet(sheet_id) && n == edits@.len() && final(self).cells_view() == apply_edits_map(
                    old(self).cells_view(),
                    sheet_id,
                    edits@.map_values(|e: CellEdit| e@),
                ),
                Err(StoreError::MissingSheet) => !old(self).has_sheet(sheet_id) && final(self).cells == old(self).cells,
            },
            final(self).publishers == old(self).publishers,
            final(self).sheets == old(self).sheets,
            final(self).relations == old(self).relations,
            final(self).updates == old(self).updates,
            final(self).next_seq == old(self).next_seq,
    {
        if !self.sheet_exists(sheet_id) {
            return Err(StoreError::MissingSheet);
        }
        let ghost ms = edits@.map_values(|e: CellEdit| e@);
        let ghost m0 = old(self).cells_view();
        proof {
            assert(ms.skip(0) == ms);
        }
        let n = edits.len();
        for i in 0..n
            invariant
                n == edits@.len(),
                ms == edits@.map_values(|e: CellEdit| e@),
                self.wf(),
                old(self).has_sheet(sheet_id),
                apply_edits_map(self.cells_view(), sheet_id, ms.skip(i as int)) == apply_edits_map(
                    m0,
                    sheet_id,
                    ms,
                ),
                self.publishers == old(self).publishers,
                self.sheets == old(self).sheets,
                self.relations == old(self).relations,
                self.updates == old(self).updates,
                self.next_seq == old(self).next_seq,
        {
            proof {
                assert(ms.skip(i as int).len() == ms.len() - i);
                assert(ms.skip(i as int)[0] == ms[i as int]);
                assert(ms.skip(i as int).drop_first() =~~= ms.skip(i + 1));
                assert(ms[i as int] == edits@[i as int]@);
            }
            self.upsert_cell(sheet_id, &edits[i]);
        }
        proof {
            assert(ms.skip(n as int) =~~= Seq::<EditModel>::empty());
        }
        Ok(n)
    }

    /// Appends one entry to the update log: the next sequence id is handed
    /// out, strictly greater than every id already in the log.
    pub fn append(&mut self, sheet_id: u128, owner_id: u128, ownership: Ownership, payload: &str)
        -> (r: Result<u64, LogError>)
        requires
            old(self).wf(),
        ensures
            final(self).wf(),
            match r {
                Ok(s) => old(self).has_sheet(sheet_id) && old(self).next_seq < u64::MAX && s == old(self).next_seq && final(self).updates@.len() == old(self).updates@.len() + 1 && final(self).updates@.drop_last() == old(self).updates@ && final(self).updates@.last().seq == s
                    && final(self).updates@.last().sheet_id == sheet_id && final(self).updates@.last().owner_id == owner_id && final(self).updates@.last().ownership
                    == ownership && final(self).updates@.last().payload@ == payload@ && final(self).next_seq == old(self).next_seq + 1,
                Err(LogError::MissingSheet) => !old(self).has_sheet(sheet_id) && final(self).updates == old(self).updates && final(self).next_seq == old(self).next_seq,
                Err(LogError::SequenceExhausted) => old(self).has_sheet(sheet_id) && old(self).next_seq == u64::MAX && final(self).updates == old(self).updates && final(self).next_seq == old(self).next_seq,
            },
            final(self).publishers == old(self).publishers,
            final(self).sheets == old(self).sheets,
            final(self).relations == old(self).relations,
            final(self).cells == old(self).cells,
    {
        if !self.sheet_exists(sheet_id) {
            return Err(LogError::MissingSheet);
        }
        if self.next_seq == u64::MAX {
            return Err(LogError::SequenceExhausted);
        }
        let seq_id = self.next_seq;
        let ghost pre = self.updates@;
        self.updates.push(
            Update {
                seq: seq_id,
                sheet_id,
                owner_id,
                ownership,
                payload: String::from_str(payload),
            },
        );
        self.next_seq = seq_id + 1;
        proof {
            assert(self.updates@.drop_last() =~= pre);
            assert forall|i: int, j: int| 0 <= i < j < self.updates@.len() implies (
            #[trigger] self.updates@[i]).seq < (#[trigger] self.updates@[j]).seq by {
                if j < self.updates@.len() - 1 {
                    assert(pre[i].seq < pre[j].seq);
                } else {
                    assert(pre[i].seq < old(self).next_seq);
                }
            }
            assert forall|i: int| 0 <= i < self.relations@.len() implies self.has_sheet(
                (#[trigger] self.relations@[i]).sheet_id,
            ) by {
                assert(old(self).has_sheet(old(self).relations@[i].sheet_id));
                let w = choose|w: int|
                    0 <= w < old(self).sheets@.len() && old(self).sheets@[w].id == old(self).relations@[i].sheet_id;
                assert(self.sheets@[w].id == self.relations@[i].sheet_id);
            }
        }
        Ok(seq_id)
    }

    /// Reads the log for one sheet and one role: exactly the entries with a
    /// sequence id strictly greater than the cursor, in log order. A cursor
    /// of zero reads the full history of that role.
    pub fn query(&self, sheet_id: u128, ownership: Ownership, after: u64) -> (r: Result<
        Vec<Update>,
        LogError,
    >)
        ensures
            match r {
                Ok(v) => self.has_sheet(sheet_id) && v@ == updates_after(
                    self.updates@,
                    sheet_id,
                    ownership,
                    after,
                ),
                Err(e) => e == LogError::MissingSheet && !self.has_sheet(sheet_id),
            },
    {
        if !self.sheet_exists(sheet_id) {
            return Err(LogError::MissingSheet);
        }
        let ghost pred = update_pred(sheet_id, ownership, after);
        let mut out: Vec<Update> = Vec::new();
        let n = self.updates.len();
        proof {
            reveal(Seq::filter);
        }
        for i in 0..n
            invariant
                n == self.updates@.len(),
                pred == update_pred(sheet_id, ownership, after),
                out@ == self.updates@.take(i as int).filter(pred),
        {
            proof {
                reveal(Seq::filter);
                assert(self.updates@.take(i + 1).drop_last() == self.updates@.take(i as int));
                assert(self.updates@.take(i + 1).last() == self.updates@[i as int]);
            }
            let u = &self.updates[i];
            if u.sheet_id == sheet_id && u.ownership == ownership && u.seq > after {
                out.push(u.duplicate());
            }
        }
        proof {
            assert(self.updates@.take(n as int) == self.updates@);
        }
        Ok(out)
    }
}

/// Why a lifecycle operation (create, delete, edit submission, replay)
/// failed.
#[derive(Clone, PartialEq, Debug)]
pub enum LifecycleError {
    /// No publisher is registered under the given username.
    OwnerNotFound,
    /// A delete matched no sheet, relation, cell or log entry at all.
    NothingDeleted,
    /// A sheet with the freshly drawn id already exists.
    SheetIdTaken,
    /// The owner has no sheet with the given title.
    SheetNotFound,
    /// The payload does not decode.
    Decode(DecodeError),
    /// The log has handed out every sequence id.
    SequenceExhausted,
}

/// How many rows a cascading delete removed, per category.
#[derive(Clone, Copy, PartialEq, Eq, Structural, Debug)]
pub struct DeletionCounts {
    pub sheets: usize,
    pub relations: usize,
    pub cells: usize,
    pub updates: usize,
}

/// The sheets that survive deleting the given ids.
pub open spec fn sheets_purged(pre: Seq<Sheet>, ids: Seq<u128>) -> Seq<Sheet> {
    pre.filter(|s: Sheet| !ids.contains(s.id))
}

pub open spec fn relations_purged(pre: Seq<Relation>, ids: Seq<u128>) -> Seq<Relation> {
    pre.filter(|r: Relation| !ids.contains(r.sheet_id))
}

pub open spec fn cells_purged(pre: Seq<Cell>, ids: Seq<u128>) -> Seq<Cell> {
    pre.filter(|c: Cell| !ids.contains(c.sheet_id))
}

pub open spec fn updates_purged(pre: Seq<Update>, ids: Seq<u128>) -> Seq<Update> {
    pre.filter(|u: Update| !ids.contains(u.sheet_id))
}

/// A filtered sequence keeps every pairwise property of the unfiltered
/// one, and every element of it comes from the unfiltered one.
pub proof fn lemma_filter_pairwise<A>(s: Seq<A>, keep: spec_fn(A) -> bool, rel: spec_fn(A, A) -> bool)
    requires
        forall|i: int, j: int| 0 <= i < j < s.len() ==> rel(#[trigger] s[i], #[trigger] s[j]),
    ensures
        forall|i: int, j: int|
            0 <= i < j < s.filter(keep).len() ==> rel(
                #[trigger] s.filter(keep)[i],
                #[trigger] s.filter(keep)[j],
            ),
        forall|i: int| 0 <= i < s.filter(keep).len() ==> s.contains(#[trigger] s.filter(keep)[i]),
    decreases s.len(),
{
    reveal(Seq::filter);
    if s.len() > 0 {
        let d = s.drop_last();
        assert forall|i: int, j: int| 0 <= i < j < d.len() implies rel(
            #[trigger] d[i],
            #[trigger] d[j],
        ) by {
            assert(d[i] == s[i]);
            assert(d[j] == s[j]);
        }
        lemma_filter_pairwise(d, keep, rel);
        let f = s.filter(keep);
        let fd = d.filter(keep);
        assert forall|i: int| 0 <= i < fd.len() implies s.contains(#[trigger] fd[i]) by {
            assert(d.contains(fd[i]));
            let w = choose|w: int| 0 <= w < d.len() && d[w] == fd[i];
            assert(s[w] == fd[i]);
        }
        if keep(s.last()) {
            assert(f == fd.push(s.last()));
            assert(s.contains(s.last())) by {
                assert(s[s.len() - 1] == s.last());
            }
            assert forall|i: int, j: int| 0 <= i < j < f.len() implies rel(
                #[trigger] f[i],
                #[trigger] f[j],
            ) by {
                if j < f.len() - 1 {
                    assert(f[i] == fd[i] && f[j] == fd[j]);
                } else {
                    assert(f[j] == s.last());
                    assert(f[i] == fd[i]);
                    assert(d.contains(fd[i]));
                    let w = choose|w: int| 0 <= w < d.len() && d[w] == fd[i];
                    assert(s[w] == f[i]);
                    assert(rel(s[w], s[s.len() - 1]));
                }
            }
        } else {
            assert(f == fd);
        }
    }
}

/// Membership in a plain id list.
fn id_in(ids: &Vec<u128>, x: u128) -> (r: bool)
    ensures
        r == ids@.contains(x),
{
    let n = ids.len();
    for i in 0..n
        invariant
            n == ids@.len(),
            forall|t: int| 0 <= t < i ==> ids@[t] != x,
    {
        if ids[i] == x {
            return true;
        }
    }
    false
}

/// Relies on uuid's `Uuid::new_v4`: a freshly drawn random 128-bit id.
/// Nothing is promised of the value; callers handle collisions explicitly.
#[verifier::external_body]
fn mint_id() -> u128 {
    uuid::Uuid::new_v4().as_u128()
}

impl Store {
    /// Registers a new account under a freshly drawn id and returns the id.
    /// The id is random, so a collision is answered like any other taken id.
    pub fn register_fresh(&mut self, username: &str, secret_hash: &str) -> (r: Result<
        u128,
        RegisterError,
    >)
        requires
            old(self).wf(),
        ensures
            final(self).wf(),
            match r {
                Ok(id) => !old(self).has_username(username@) && !old(self).has_publisher_id(id)
                    && final(self).publishers@.len() == old(self).publishers@.len() + 1
                    && final(self).publishers@.drop_last() == old(self).publishers@
                    && final(self).publishers@.last().id == id
                    && final(self).publishers@.last().username@ == username@
                    && final(self).publishers@.last().secret_hash@ == secret_hash@,
                Err(RegisterError::UsernameTaken) => old(self).has_username(username@)
                    && final(self).publishers == old(self).publishers,
                Err(RegisterError::IdTaken) => !old(self).has_username(username@)
                    && final(self).publishers == old(self).publishers,
            },
            final(self).sheets == old(self).sheets,
            final(self).relations == old(self).relations,
            final(self).cells == old(self).cells,
            final(self).updates == old(self).updates,
            final(self).next_seq == old(self).next_seq,
    {
        let id = mint_id();
        match self.register_publisher(id, username, secret_hash) {
            Ok(_) => Ok(id),
            Err(e) => Err(e),
        }
    }

    /// Creates a sheet: resolves the owner, records the sheet and its
    /// ownership relation, and fills the grid from the decoded payload — or
    /// with the single placeholder cell `A0` holding the empty value when
    /// the payload is absent or empty.
    pub fn create(
        &mut self,
        sheet_id: u128,
        owner_username: &str,
        title: &str,
        payload: Option<&str>,
    ) -> (r: Result<(), LifecycleError>)
        requires
            old(self).wf(),
        ensures
            final(self).wf(),
            final(self).publishers == old(self).publishers,
            final(self).updates == old(self).updates,
            final(self).next_seq == old(self).next_seq,
            match r {
                Ok(_) => old(self).has_username(owner_username@) && !old(self).has_sheet(sheet_id)
                    && final(self).sheets@.len() == old(self).sheets@.len() + 1
                    && final(self).sheets@.drop_last() == old(self).sheets@
                    && final(self).sheets@.last().id == sheet_id
                    && final(self).sheets@.last().title@ == title@
                    && final(self).relations@.len() == old(self).relations@.len() + 1
                    && final(self).relations@.drop_last() == old(self).relations@
                    && final(self).relations@.last().sheet_id == sheet_id
                    && final(self).relations@.last().publisher_id == old(self).owner_id_of(owner_username@)
                    && (match payload {
                        Some(p) => if p@.len() > 0 {
                            spec_decode(p@) matches Ok(ms) && final(self).cells_view()
                                == apply_edits_map(old(self).cells_view(), sheet_id, ms)
                        } else {
                            final(self).cells_view() == old(self).cells_view().insert(
                                (sheet_id, 'A', 0int),
                                Seq::<char>::empty(),
                            )
                        },
                        None => final(self).cells_view() == old(self).cells_view().insert(
                            (sheet_id, 'A', 0int),
                            Seq::<char>::empty(),
                        ),
                    }),
                Err(LifecycleError::OwnerNotFound) => !old(self).has_username(owner_username@)
                    && *final(self) == *old(self),
                Err(LifecycleError::SheetIdTaken) => old(self).has_username(owner_username@)
                    && old(self).has_sheet(sheet_id) && *final(self) == *old(self),
                Err(LifecycleError::Decode(e)) => old(self).has_username(owner_username@)
                    && !old(self).has_sheet(sheet_id) && (payload matches Some(p) && p@.len() > 0
                    && spec_decode(p@) == Err::<Seq<EditModel>, ErrModel>(e@))
                    && *final(self) == *old(self),
                _ => false,
            },
    {
        let owner = match self.publisher_id_of(owner_username) {
            Some(o) => o,
            None => {
                return Err(LifecycleError::OwnerNotFound);
            },
        };
        if self.sheet_exists(sheet_id) {
            return Err(LifecycleError::SheetIdTaken);
        }
        let edits: Vec<CellEdit> = match payload {
            Some(p) => {
                if !p.is_empty() {
                    match decode(p) {
                        Ok(v) => v,
                        Err(e) => {
                            return Err(LifecycleError::Decode(e));
                        },
                    }
                } else {
                    placeholder_batch()
                }
            },
            None => placeholder_batch(),
        };
        let ghost pre = *self;
        self.sheets.push(Sheet { id: sheet_id, title: String::from_str(title) });
        self.relations.push(Relation { publisher_id: owner, sheet_id });
        proof {
            assert(self.sheets@.drop_last() =~= pre.sheets@);
            assert(self.relations@.drop_last() =~= pre.relations@);
            assert forall|i: int, j: int| 0 <= i < j < self.sheets@.len() implies (
            #[trigger] self.sheets@[i]).id != (#[trigger] self.sheets@[j]).id by {
                if j < self.sheets@.len() - 1 {
                    assert(pre.sheets@[i].id != pre.sheets@[j].id);
                }
            }
            assert forall|i: int, j: int| 0 <= i < j < self.relations@.len() implies (
            #[trigger] self.relations@[i]).sheet_id != (
            #[trigger] self.relations@[j]).sheet_id by {
                if j < self.relations@.len() - 1 {
                    assert(pre.relations@[i].sheet_id != pre.relations@[j].sheet_id);
                } else {
                    // a relation row always points at a live sheet, and no
                    // live sheet carried the fresh id before the push
                    assert(pre.relations_reference_sheets());
                    assert(pre.has_sheet(pre.relations@[i].sheet_id));
                }
            }
            assert forall|i: int| 0 <= i < self.relations@.len() implies self.has_sheet(
                (#[trigger] self.relations@[i]).sheet_id,
            ) by {
                if i < self.relations@.len() - 1 {
                    assert(pre.has_sheet(pre.relations@[i].sheet_id));
                    let w = choose|w: int|
                        0 <= w < pre.sheets@.len() && pre.sheets@[w].id == pre.relations@[i].sheet_id;
                    assert(self.sheets@[w].id == self.relations@[i].sheet_id);
                } else {
                    assert(self.sheets@.last().id == sheet_id);
                    assert(self.sheets@[self.sheets@.len() - 1].id == sheet_id);
                }
            }
        }
        let ghost ms = edits@.map_values(|e: CellEdit| e@);
        let applied = self.apply_batch(sheet_id, &edits);
        proof {
            if ms.len() == 1 && ms[0] == (EditModel {
                col: 'A',
                row: 0int,
                val: Seq::<char>::empty(),
            }) {
                assert(ms.drop_first() =~~= Seq::<EditModel>::empty());
                assert((sheet_id, ms[0].col, ms[0].row) == (sheet_id, 'A', 0int));
                assert(apply_edits_map(pre.cells_view(), sheet_id, ms) == apply_edits_map(
                    pre.cells_view().insert((sheet_id, 'A', 0int), Seq::<char>::empty()),
                    sheet_id,
                    ms.drop_first(),
                ));
                assert(apply_edits_map(pre.cells_view(), sheet_id, ms) == pre.cells_view().insert(
                    (sheet_id, 'A', 0int),
                    Seq::<char>::empty(),
                ));
            }
        }
        match applied {
            Ok(_) => Ok(()),
            Err(_) => {
                proof {
                    assert(self.sheets@[self.sheets@.len() - 1].id == sheet_id);
                    assert(false);
                }
                Ok(())
            },
        }
    }
}

/// The single placeholder cell every empty sheet starts with: column `A`,
/// row zero, empty value.
fn placeholder_batch() -> (r: Vec<CellEdit>)
    ensures
        r@.len() == 1,
        r@[0]@ == (EditModel { col: 'A', row: 0int, val: Seq::<char>::empty() }),
{
    let mut v: Vec<CellEdit> = Vec::new();
    v.push(CellEdit { column: 'A', row: 0, value: String::new() });
    v
}

/// Dropping at least one element makes a filtered sequence strictly
/// shorter.
proof fn lemma_filter_excludes<A>(s: Seq<A>, keep: spec_fn(A) -> bool, i: int)
    requires
        0 <= i < s.len(),
        !keep(s[i]),
    ensures
        s.filter(keep).len() < s.len(),
    decreases s.len(),
{
    reveal(Seq::filter);
    s.lemma_filter_len(keep);
    if i == s.len() - 1 {
        s.drop_last().lemma_filter_len(keep);
    } else {
        assert(s.drop_last()[i] == s[i]);
        lemma_filter_excludes(s.drop_last(), keep, i);
    }
}

impl Sheet {
    /// A field-for-field copy of this row.
    pub fn duplicate(&self) -> (r: Sheet)
        ensures
            r == *self,
    {
        Sheet { id: self.id, title: self.title.clone() }
    }
}

impl Cell {
    /// A field-for-field copy of this row.
    pub fn duplicate(&self) -> (r: Cell)
        ensures
            r == *self,
    {
        Cell {
            sheet_id: self.sheet_id,
            column: self.column,
            row: self.row,
            value: self.value.clone(),
        }
    }
}

impl Store {
    /// Deletes every sheet this owner has under this title, cascading to
    /// the ownership relation rows, the update-log entries and the cells,
    /// then the sheet rows themselves. Returns how many rows each category
    /// lost; a delete that touches nothing is reported as such, not as
    /// success.
    pub fn delete(&mut self, owner_username: &str, title: &str) -> (r: Result<
        DeletionCounts,
        LifecycleError,
    >)
        requires
            old(self).wf(),
        ensures
            final(self).wf(),
            final(self).publishers == old(self).publishers,
            final(self).next_seq == old(self).next_seq,
            match r {
                Ok(c) => ({
                    let ids = old(self).matching_ids(
                        old(self).owner_id_of(owner_username@),
                        title@,
                    );
                    old(self).has_username(owner_username@) && ids.len() > 0 && final(self).sheets@ == sheets_purged(old(self).sheets@, ids) && final(self).relations@
                        == relations_purged(old(self).relations@, ids) && final(self).cells@
                        == cells_purged(old(self).cells@, ids) && final(self).updates@
                        == updates_purged(old(self).updates@, ids) && c.sheets == old(self).sheets@.len() - final(self).sheets@.len() && c.relations == old(self).relations@.len() - final(self).relations@.len() && c.cells == old(self).cells@.len() - final(self).cells@.len() && c.updates == old(self).updates@.len() - final(self).updates@.len() && c.sheets >= 1
                }),
                Err(LifecycleError::OwnerNotFound) => !old(self).has_username(owner_username@)
                    && *final(self) == *old(self),
                Err(LifecycleError::NothingDeleted) => old(self).has_username(owner_username@)
                    && old(self).matching_ids(old(self).owner_id_of(owner_username@), title@).len()
                    == 0 && *final(self) == *old(self),
                _ => false,
            },
    {
        let owner = match self.publisher_id_of(owner_username) {
            Some(o) => o,
            None => {
                return Err(LifecycleError::OwnerNotFound);
            },
        };
        let ids = self.find_by_owner_and_title(owner, title);
        if ids.len() == 0 {
            return Err(LifecycleError::NothingDeleted);
        }
        let ghost gids = ids@;
        let ghost pre = *self;

        let mut kept_sheets: Vec<Sheet> = Vec::new();
        let ns = self.sheets.len();
        proof {
            reveal(Seq::filter);
        }
        for i in 0..ns
            invariant
                *self == *old(self),
                gids == ids@,
                ns == self.sheets@.len(),
                kept_sheets@ == sheets_purged(self.sheets@.take(i as int), gids),
        {
            proof {
                reveal(Seq::filter);
                assert(self.sheets@.take(i + 1).drop_last() == self.sheets@.take(i as int));
                assert(self.sheets@.take(i + 1).last() == self.sheets@[i as int]);
            }
            if !id_in(&ids, self.sheets[i].id) {
                kept_sheets.push(self.sheets[i].duplicate());
            }
        }
        let mut kept_relations: Vec<Relation> = Vec::new();
        let nr = self.relations.len();
        for i in 0..nr
            invariant
                *self == *old(self),
                gids == ids@,
                nr == self.relations@.len(),
                kept_relations@ == relations_purged(self.relations@.take(i as int), gids),
        {
            proof {
                reveal(Seq::filter);
                assert(self.relations@.take(i + 1).drop_last() == self.relations@.take(i as int));
                assert(self.relations@.take(i + 1).last() == self.relations@[i as int]);
            }
            if !id_in(&ids, self.relations[i].sheet_id) {
                kept_relations.push(self.relations[i]);
            }
        }
        let mut kept_cells: Vec<Cell> = Vec::new();
        let nc = self.cells.len();
        for i in 0..nc
            invariant
                *self == *old(self),
                gids == ids@,
                nc == self.cells@.len(),
                kept_cells@ == cells_purged(self.cells@.take(i as int), gids),
        {
            proof {
                reveal(Seq::filter);
                assert(self.cells@.take(i + 1).drop_last() == self.cells@.take(i as int));
                assert(self.cells@.take(i + 1).last() == self.cells@[i as int]);
            }
            if !id_in(&ids, self.cells[i].sheet_id) {
                kept_cells.push(self.cells[i].duplicate());
            }
        }
        let mut kept_updates: Vec<Update> = Vec::new();
        let nu = self.updates.len();
        for i in 0..nu
            invariant
                *self == *old(self),
                gids == ids@,
                nu == self.updates@.len(),
                kept_updates@ == updates_purged(self.updates@.take(i as int), gids),
        {
            proof {
                reveal(Seq::filter);
                assert(self.updates@.take(i + 1).drop_last() == self.updates@.take(i as int));
                assert(self.updates@.take(i + 1).last() == self.updates@[i as int]);
            }
            if !id_in(&ids, self.updates[i].sheet_id) {
                kept_updates.push(self.updates[i].duplicate());
            }
        }
        proof {
            assert(self.sheets@.take(ns as int) == self.sheets@);
            assert(self.relations@.take(nr as int) == self.relations@);
            assert(self.cells@.take(nc as int) == self.cells@);
            assert(self.updates@.take(nu as int) == self.updates@);
            pre.sheets@.lemma_filter_len((|s: Sheet| !gids.contains(s.id)));
            pre.relations@.lemma_filter_len((|x: Relation| !gids.contains(x.sheet_id)));
            pre.cells@.lemma_filter_len((|c: Cell| !gids.contains(c.sheet_id)));
            pre.updates@.lemma_filter_len((|u: Update| !gids.contains(u.sheet_id)));
            // the first matched sheet is dropped, so at least one row goes
            let p0 = |s: Sheet| pre.sheet_matches(s, owner, title@);
            let m0 = pre.sheets@.filter(p0);
            assert(gids[0] == m0.map_values(|s: Sheet| s.id)[0]);
            lemma_filter_pairwise(pre.sheets@, p0, (|a: Sheet, b: Sheet| true));
            assert(pre.sheets@.contains(m0[0]));
            let w = choose|w: int| 0 <= w < pre.sheets@.len() && pre.sheets@[w] == m0[0];
            assert(gids.contains(pre.sheets@[w].id)) by {
                assert(gids[0] == m0[0].id);
            }
            lemma_filter_excludes(pre.sheets@, (|s: Sheet| !gids.contains(s.id)), w);
        }
        let counts = DeletionCounts {
            sheets: self.sheets.len() - kept_sheets.len(),
            relations: self.relations.len() - kept_relations.len(),
            cells: self.cells.len() - kept_cells.len(),
            updates: self.updates.len() - kept_updates.len(),
        };
        self.sheets = kept_sheets;
        self.relations = kept_relations;
        self.cells = kept_cells;
        self.updates = kept_updates;
        proof {
            let keep_s = |s: Sheet| !gids.contains(s.id);
            let keep_r = |x: Relation| !gids.contains(x.sheet_id);
            let keep_c = |c: Cell| !gids.contains(c.sheet_id);
            let keep_u = |u: Update| !gids.contains(u.sheet_id);
            lemma_filter_pairwise(
                pre.sheets@,
                keep_s,
                (|a: Sheet, b: Sheet| a.id != b.id),
            );
            lemma_filter_pairwise(
                pre.relations@,
                keep_r,
                (|a: Relation, b: Relation| a.sheet_id != b.sheet_id),
            );
            lemma_filter_pairwise(
                pre.cells@,
                keep_c,
                (|a: Cell, b: Cell| cell_key(a) != cell_key(b)),
            );
            lemma_filter_pairwise(
                pre.updates@,
                keep_u,
                (|a: Update, b: Update| a.seq < b.seq),
            );
            // bounds carry over because every kept entry was already logged
            assert forall|i: int| 0 <= i < self.updates@.len() implies (
            #[trigger] self.updates@[i]).seq < self.next_seq by {
                assert(pre.updates@.contains(self.updates@[i]));
                let w = choose|w: int|
                    0 <= w < pre.updates@.len() && pre.updates@[w] == self.updates@[i];
                assert(pre.updates@[w].seq < pre.next_seq);
            }
            // kept relations still point at kept sheets
            assert forall|i: int| 0 <= i < self.relations@.len() implies self.has_sheet(
                (#[trigger] self.relations@[i]).sheet_id,
            ) by {
                assert(pre.relations@.contains(self.relations@[i]));
                let w = choose|w: int|
                    0 <= w < pre.relations@.len() && pre.relations@[w] == self.relations@[i];
                assert(pre.has_sheet(pre.relations@[w].sheet_id));
                let v = choose|v: int|
                    0 <= v < pre.sheets@.len() && pre.sheets@[v].id == pre.relations@[w].sheet_id;
                assert(keep_s(pre.sheets@[v]));
                pre.sheets@.lemma_filter_contains(keep_s, v);
                assert(self.sheets@.contains(pre.sheets@[v]));
                let u = choose|u: int|
                    0 <= u < self.sheets@.len() && self.sheets@[u] == pre.sheets@[v];
                assert(self.sheets@[u].id == self.relations@[i].sheet_id);
            }
        }
        Ok(counts)
    }

    /// Submits one edit batch under the given role: decodes the payload,
    /// applies every edit to the owner's sheet with that title, and appends
    /// the raw payload to the log — all or nothing. Returns how many edits
    /// were applied.
    pub fn submit_edit(
        &mut self,
        owner_username: &str,
        title: &str,
        ownership: Ownership,
        payload: &str,
    ) -> (r: Result<usize, LifecycleError>)
        requires
            old(self).wf(),
        ensures
            final(self).wf(),
            final(self).publishers == old(self).publishers,
            final(self).sheets == old(self).sheets,
            final(self).relations == old(self).relations,
            match r {
                Ok(n) => ({
                    let owner = old(self).owner_id_of(owner_username@);
                    let ids = old(self).matching_ids(owner, title@);
                    old(self).has_username(owner_username@) && ids.len() > 0 && old(self).next_seq
                        < u64::MAX && (spec_decode(payload@) matches Ok(ms) && n == ms.len()
                        && final(self).cells_view() == apply_edits_map(
                        old(self).cells_view(),
                        ids[0],
                        ms,
                    )) && final(self).updates@.len() == old(self).updates@.len() + 1 && final(self).updates@.drop_last() == old(self).updates@ && final(self).updates@.last().seq
                        == old(self).next_seq && final(self).updates@.last().sheet_id == ids[0]
                        && final(self).updates@.last().owner_id == owner && final(self).updates@.last().ownership == ownership && final(self).updates@.last().payload@
                        == payload@ && final(self).next_seq == old(self).next_seq + 1
                }),
                Err(LifecycleError::OwnerNotFound) => !old(self).has_username(owner_username@)
                    && *final(self) == *old(self),
                Err(LifecycleError::SheetNotFound) => old(self).has_username(owner_username@)
                    && old(self).matching_ids(old(self).owner_id_of(owner_username@), title@).len()
                    == 0 && *final(self) == *old(self),
                Err(LifecycleError::Decode(e)) => old(self).has_username(owner_username@) && old(self).matching_ids(old(self).owner_id_of(owner_username@), title@).len() > 0
                    && spec_decode(payload@) == Err::<Seq<EditModel>, ErrModel>(e@) && *final(self)
                    == *old(self),
                Err(LifecycleError::SequenceExhausted) => old(self).has_username(owner_username@)
                    && old(self).next_seq == u64::MAX && *final(self) == *old(self),
                _ => false,
            },
    {
        let owner = match self.publisher_id_of(owner_username) {
            Some(o) => o,
            None => {
                return Err(LifecycleError::OwnerNotFound);
            },
        };
        let ids = self.find_by_owner_and_title(owner, title);
        if ids.len() == 0 {
            return Err(LifecycleError::SheetNotFound);
        }
        let edits = match decode(payload) {
            Ok(v) => v,
            Err(e) => {
                return Err(LifecycleError::Decode(e));
            },
        };
        if self.next_seq == u64::MAX {
            return Err(LifecycleError::SequenceExhausted);
        }
        let sid = ids[0];
        proof {
            let p0 = |s: Sheet| self.sheet_matches(s, owner, title@);
            let m0 = self.sheets@.filter(p0);
            lemma_filter_pairwise(self.sheets@, p0, (|a: Sheet, b: Sheet| true));
            assert(ids@[0] == m0.map_values(|s: Sheet| s.id)[0]);
            assert(self.sheets@.contains(m0[0]));
            let w = choose|w: int| 0 <= w < self.sheets@.len() && self.sheets@[w] == m0[0];
            assert(self.sheets@[w].id == sid);
            assert(self.has_sheet(sid));
        }
        let applied = self.apply_batch(sid, &edits);
        let n = match applied {
            Ok(n) => n,
            Err(_) => {
                proof {
                    assert(false);
                }
                0
            },
        };
        let appended = self.append(sid, owner, ownership, payload);
        match appended {
            Ok(_) => Ok(n),
            Err(_) => {
                proof {
                    assert(old(self).has_sheet(sid));
                    assert(self.has_sheet(sid));
                    assert(false);
                }
                Ok(n)
            },
        }
    }

    /// Replays the log for one sheet and role: the raw payloads of every
    /// entry after the cursor, concatenated in log order — exactly the
    /// batch string a client must apply to catch up.
    pub fn updates_payload(
        &self,
        owner_username: &str,
        title: &str,
        ownership: Ownership,
        after: u64,
    ) -> (r: Result<String, LifecycleError>)
        requires
            self.wf(),
        ensures
            match r {
                Ok(s) => ({
                    let ids = self.matching_ids(self.owner_id_of(owner_username@), title@);
                    self.has_username(owner_username@) && ids.len() > 0 && s@ == concat_payloads(
                        updates_after(self.updates@, ids[0], ownership, after).map_values(
                            |u: Update| u.payload@,
                        ),
                    )
                }),
                Err(LifecycleError::OwnerNotFound) => !self.has_username(owner_username@),
                Err(LifecycleError::SheetNotFound) => self.has_username(owner_username@)
                    && self.matching_ids(self.owner_id_of(owner_username@), title@).len() == 0,
                _ => false,
            },
    {
        let owner = match self.publisher_id_of(owner_username) {
            Some(o) => o,
            None => {
                return Err(LifecycleError::OwnerNotFound);
            },
        };
        let ids = self.find_by_owner_and_title(owner, title);
        if ids.len() == 0 {
            return Err(LifecycleError::SheetNotFound);
        }
        let sid = ids[0];
        proof {
            let p0 = |s: Sheet| self.sheet_matches(s, owner, title@);
            let m0 = self.sheets@.filter(p0);
            lemma_filter_pairwise(self.sheets@, p0, (|a: Sheet, b: Sheet| true));
            assert(ids@[0] == m0.map_values(|s: Sheet| s.id)[0]);
            assert(self.sheets@.contains(m0[0]));
            let w = choose|w: int| 0 <= w < self.sheets@.len() && self.sheets@[w] == m0[0];
            assert(self.sheets@[w].id == sid);
            assert(self.has_sheet(sid));
        }
        let entries = match self.query(sid, ownership, after) {
            Ok(v) => v,
            Err(_) => {
                proof {
                    assert(false);
                }
                Vec::new()
            },
        };
        let mut payloads: Vec<String> = Vec::new();
        let ne = entries.len();
        for i in 0..ne
            invariant
                ne == entries@.len(),
                payloads.deep_view() == entries@.take(i as int).map_values(|u: Update| u.payload@),
        {
            let ghost prevdv = payloads.deep_view();
            payloads.push(entries[i].payload.clone());
            proof {
                assert(payloads.deep_view() =~~= prevdv.push(entries@[i as int].payload@));
                assert(entries@.take(i + 1).map_values(|u: Update| u.payload@) =~~= entries@.take(
                    i as int,
                ).map_values(|u: Update| u.payload@).push(entries@[i as int].payload@));
            }
        }
        proof {
            assert(entries@.take(ne as int) == entries@);
        }
        Ok(encode_batch(&payloads))
    }

    /// The value of the cell at a coordinate, if one is set.
    pub fn cell_value(&self, sheet_id: u128, column: char, row: i32) -> (r: Option<String>)
        requires
            self.wf(),
        ensures
            match r {
                Some(v) => self.cells_view().contains_key((sheet_id, column, row as int)) && v@
                    == self.cells_view()[(sheet_id, column, row as int)],
                None => !self.cells_view().contains_key((sheet_id, column, row as int)),
            },
    {
        proof {
            lemma_cells_map_dom(self.cells@, (sheet_id, column, row as int));
        }
        match self.find_cell_at(sheet_id, column, row) {
            Some(j) => Some(self.cells[j].value.clone()),
            None => None,
        }
    }

    /// How many cells a sheet holds.
    pub fn cell_count_of(&self, sheet_id: u128) -> (r: usize)
        ensures
            r == sheet_count(self.cells@, sheet_id),
    {
        let mut count: usize = 0;
        let n = self.cells.len();
        proof {
            reveal(Seq::filter);
        }
        for i in 0..n
            invariant
                n == self.cells@.len(),
                count == sheet_count(self.cells@.take(i as int), sheet_id),
                count <= i,
        {
            proof {
                reveal(Seq::filter);
                assert(self.cells@.take(i + 1).drop_last() == self.cells@.take(i as int));
                assert(self.cells@.take(i + 1).last() == self.cells@[i as int]);
                self.cells@.take(i as int).lemma_filter_len((|c: Cell| c.sheet_id == sheet_id));
            }
            if self.cells[i].sheet_id == sheet_id {
                count += 1;
            }
        }
        proof {
            assert(self.cells@.take(n as int) == self.cells@);
        }
        count
    }
}

impl Store {
    /// Creates a sheet under a freshly drawn id and returns the id. The id
    /// is random, so a collision is answered like any other taken id.
    pub fn create_fresh(&mut self, owner_username: &str, title: &str, payload: Option<&str>) -> (r:
        Result<u128, LifecycleError>)
        requires
            old(self).wf(),
        ensures
            final(self).wf(),
            final(self).publishers == old(self).publishers,
            final(self).updates == old(self).updates,
            final(self).next_seq == old(self).next_seq,
            match r {
                Ok(id) => old(self).has_username(owner_username@) && !old(self).has_sheet(id)
                    && final(self).sheets@.len() == old(self).sheets@.len() + 1 && final(self).sheets@.drop_last() == old(self).sheets@ && final(self).sheets@.last().id == id
                    && final(self).sheets@.last().title@ == title@ && final(self).relations@.len()
                    == old(self).relations@.len() + 1 && final(self).relations@.drop_last() == old(self).relations@ && final(self).relations@.last().sheet_id == id && final(self).relations@.last().publisher_id == old(self).owner_id_of(owner_username@) && (
                match payload {
                    Some(p) => if p@.len() > 0 {
                        spec_decode(p@) matches Ok(ms) && final(self).cells_view()
                            == apply_edits_map(old(self).cells_view(), id, ms)
                    } else {
                        final(self).cells_view() == old(self).cells_view().insert(
                            (id, 'A', 0int),
                            Seq::<char>::empty(),
                        )
                    },
                    None => final(self).cells_view() == old(self).cells_view().insert(
                        (id, 'A', 0int),
                        Seq::<char>::empty(),
                    ),
                }),
                Err(LifecycleError::OwnerNotFound) => !old(self).has_username(owner_username@)
                    && *final(self) == *old(self),
                Err(LifecycleError::SheetIdTaken) => old(self).has_username(owner_username@)
                    && *final(self) == *old(self),
                Err(LifecycleError::Decode(e)) => old(self).has_username(owner_username@) && (
                payload_decode_fails(payload, e)) && *final(self) == *old(self),
                _ => false,
            },
    {
        let id = mint_id();
        match self.create(id, owner_username, title, payload) {
            Ok(_) => Ok(id),
            Err(e) => Err(e),
        }
    }

    /// The titles of every sheet this publisher owns, in table order.
    pub fn titles_of_owner(&self, owner: u128) -> (r: Vec<String>)
        ensures
            r.deep_view() == self.sheets@.filter(|s: Sheet| self.owned_by(s.id, owner)).map_values(
                |s: Sheet| s.title@,
            ),
    {
        let ghost pred = |s: Sheet| self.owned_by(s.id, owner);
        let mut r: Vec<String> = Vec::new();
        let n = self.sheets.len();
        proof {
            reveal(Seq::filter);
        }
        for i in 0..n
            invariant
                n == self.sheets@.len(),
                pred == (|s: Sheet| self.owned_by(s.id, owner)),
                r.deep_view() == self.sheets@.take(i as int).filter(pred).map_values(
                    |s: Sheet| s.title@,
                ),
        {
            proof {
                reveal(Seq::filter);
                assert(self.sheets@.take(i + 1).drop_last() == self.sheets@.take(i as int));
                assert(self.sheets@.take(i + 1).last() == self.sheets@[i as int]);
            }
            let s = &self.sheets[i];
            if self.relation_exists(s.id, owner) {
                let ghost prevdv = r.deep_view();
                r.push(s.title.clone());
                proof {
                    let q = self.sheets@.take(i as int).filter(pred);
                    assert(r.deep_view() =~~= prevdv.push(self.sheets@[i as int].title@));
                    assert(q.push(self.sheets@[i as int]).map_values(|s: Sheet| s.title@)
                        =~~= q.map_values(|s: Sheet| s.title@).push(self.sheets@[i as int].title@));
                }
            }
        }
        proof {
            assert(self.sheets@.take(n as int) == self.sheets@);
        }
        r
    }
}

/// Whether a creation payload fails to decode with exactly this error: an
/// absent or empty payload never does.
pub open spec fn payload_decode_fails(payload: Option<&str>, e: DecodeError) -> bool {
    match payload {
        Some(p) => p@.len() > 0 && spec_decode(p@) == Err::<Seq<EditModel>, ErrModel>(e@),
        None => false,
    }
}

} // verus!
