//! The table a search keeps of the positions it has met: the score found for
//! each, and whether it lies on the line being searched (a repetition).
use vstd::prelude::*;
use std::collections::HashMap;
use rustc_hash::FxBuildHasher;
use crate::hashable::HashableBoard;
use crate::heuristics::Score;

verus! {

/// The hasher state builder of `rustc_hash`, which the table's map hashes with.
#[verifier::external_type_specification]
#[verifier::external_body]
pub struct ExFxBuildHasher(FxBuildHasher);

/// What the table knows of a position.
#[derive(Debug, Clone, Copy)]
pub struct TableValue {
    /// The score a finished search gave the position.
    pub transposition: Option<Score>,
    /// The position lies on the line being searched.
    pub repetition: bool,
}

/// The largest number of entries a table may be limited to.
pub const MAX_CAPACITY_LIMIT: usize = 2147483647;

/// `HashMap::get` on the table's map, copying the value out: the value kept
/// under the position, if there is one. Positions are compared field by
/// field, as their derived `Eq` and `Hash` do.
#[verifier::external_body]
fn map_get(m: &HashMap<HashableBoard, TableValue, FxBuildHasher>, k: &HashableBoard) -> (r: Option<
    TableValue,
>)
    ensures
        r == if m@.contains_key(*k) {
            Some(m@[*k])
        } else {
            None::<TableValue>
        },
{
    m.get(k).copied()
}

/// `HashMap::insert` on the table's map: afterwards the position maps to the
/// value and every other entry is as it was.
#[verifier::external_body]
fn map_insert(m: &mut HashMap<HashableBoard, TableValue, FxBuildHasher>, k: HashableBoard, v: TableValue)
    ensures
        final(m)@ == old(m)@.insert(k, v),
{
    m.insert(k, v);
}

/// `HashMap::capacity` on the table's map: how many entries it can hold
/// without allocating again, at least as many as it holds. Beyond that the
/// number depends on the allocations made so far, and nothing more is stated.
#[verifier::external_body]
fn map_capacity(m: &HashMap<HashableBoard, TableValue, FxBuildHasher>) -> (r: usize)
    ensures
        r >= m@.len(),
{
    m.capacity()
}

/// `HashMap::len` on the table's map: the number of entries it holds.
#[verifier::external_body]
fn map_len(m: &HashMap<HashableBoard, TableValue, FxBuildHasher>) -> (r: usize)
    ensures
        r == m@.len(),
{
    m.len()
}

/// What a table keeps when its limit changes: nothing, where its map can
/// already hold more than the limit, else all it holds.
pub open spec fn kept_under_limit(m: Map<HashableBoard, TableValue>, capacity: int, limit: int) -> Map<
    HashableBoard,
    TableValue,
> {
    if capacity > limit {
        Map::empty()
    } else {
        m
    }
}

/// A table holding `len` entries in a map that can hold `capacity` takes a
/// new one when the map has room left, or when the map holds no more than
/// half of what the limit leaves beside it.
pub open spec fn takes_new_entry(len: int, capacity: int, limit: int) -> bool {
    len < capacity || capacity <= (if limit > capacity {
        limit - capacity
    } else {
        0
    }) / 2
}

/// Whether a table of `len` entries, in a map of `capacity`, with the limit
/// `limit`, takes a new entry, as `takes_new_entry` says.
pub fn room(len: usize, capacity: usize, limit: usize) -> (r: bool)
    ensures
        r == takes_new_entry(len as int, capacity as int, limit as int),
{
    len < capacity || capacity <= limit.saturating_sub(capacity) / 2
}

/// The positions a search has met, bounded by a number of entries.
#[derive(Debug, Clone)]
pub struct Table {
    table: HashMap<HashableBoard, TableValue, FxBuildHasher>,
    max_capacity: usize,
}

impl Table {
    /// What the table holds.
    pub closed spec fn entries(&self) -> Map<HashableBoard, TableValue> {
        self.table@
    }

    /// The number of entries the table is limited to.
    pub closed spec fn limit(&self) -> usize {
        self.max_capacity
    }

    /// An empty table limited to `max_capacity` entries, and never to more
    /// than `MAX_CAPACITY_LIMIT`.
    pub fn new(max_capacity: usize) -> (r: Table)
        ensures
            r.entries() == Map::<HashableBoard, TableValue>::empty(),
            r.limit() == if max_capacity < MAX_CAPACITY_LIMIT {
                max_capacity
            } else {
                MAX_CAPACITY_LIMIT
            },
    {
        Table {
            table: HashMap::default(),
            max_capacity: if max_capacity < MAX_CAPACITY_LIMIT {
                max_capacity
            } else {
                MAX_CAPACITY_LIMIT
            },
        }
    }

    /// How many entries the table can hold without allocating again: at
    /// least as many as it holds; beyond that, this rests on the allocations
    /// made so far.
    pub fn capacity(&self) -> (r: usize)
        ensures
            r >= self.entries().len(),
    {
        map_capacity(&self.table)
    }

    /// The number of entries the table is limited to.
    pub fn max_capacity(&self) -> (r: usize)
        ensures
            r == self.limit(),
    {
        self.max_capacity
    }

    /// Changes the limit (never beyond `MAX_CAPACITY_LIMIT`); where the table
    /// has already grown past it, its memory is given back and it is emptied.
    pub fn set_max_capacity(&mut self, max_capacity: usize)
        ensures
            final(self).limit() == if max_capacity < MAX_CAPACITY_LIMIT {
                max_capacity
            } else {
                MAX_CAPACITY_LIMIT
            },
            exists|c: usize|
                c >= old(self).entries().len() && final(self).entries() == #[trigger] kept_under_limit(
                    old(self).entries(),
                    c as int,
                    final(self).limit() as int,
                ),
    {
        let ghost before = self.entries();
        self.max_capacity = if max_capacity < MAX_CAPACITY_LIMIT {
            max_capacity
        } else {
            MAX_CAPACITY_LIMIT
        };
        let capacity = self.capacity();
        if capacity > self.max_capacity {
            self.clear_allocation();
        }
        proof {
            assert(self.entries() == kept_under_limit(before, capacity as int, self.limit() as int));
        }
    }

    /// The score kept for a position.
    pub fn get_transposition(&self, board: &HashableBoard) -> (r: Option<Score>)
        ensures
            r == if self.entries().contains_key(*board) {
                self.entries()[*board].transposition
            } else {
                None::<Score>
            },
    {
        match map_get(&self.table, board) {
            Some(value) => value.transposition,
            None => None,
        }
    }

    /// Whether a position lies on the line being searched.
    pub fn contains_repetition(&self, board: &HashableBoard) -> (r: bool)
        ensures
            r == (self.entries().contains_key(*board) && self.entries()[*board].repetition),
    {
        match map_get(&self.table, board) {
            Some(value) => value.repetition,
            None => false,
        }
    }

    /// Whether a new entry fits, as `takes_new_entry` says for the map's
    /// current capacity, which rests on the map's allocations.
    fn has_room(&self) -> (r: bool)
        ensures
            exists|c: usize|
                c >= self.entries().len() && r == takes_new_entry(self.entries().len() as int, c as int, self.limit() as int),
    {
        let capacity = self.capacity();
        let r = room(map_len(&self.table), capacity, self.max_capacity);
        proof {
            assert(capacity >= self.entries().len() && r == takes_new_entry(
                self.entries().len() as int,
                capacity as int,
                self.limit() as int,
            ));
        }
        r
    }

    /// Keeps a position's score. A position already in the table keeps its
    /// repetition mark; a new one is added only where there is room.
    pub fn insert_transposition(&mut self, board: HashableBoard, score: Score)
        ensures
            final(self).limit() == old(self).limit(),
            old(self).entries().contains_key(board) ==> final(self).entries() == old(self).entries().insert(
                board,
                TableValue { transposition: Some(score), repetition: old(self).entries()[board].repetition },
            ),
            !old(self).entries().contains_key(board) ==> exists|c: usize|
                c >= old(self).entries().len() && final(self).entries() == (if takes_new_entry(
                    old(self).entries().len() as int,
                    c as int,
                    old(self).limit() as int,
                ) {
                    old(self).entries().insert(board, TableValue { transposition: Some(score), repetition: false })
                } else {
                    old(self).entries()
                }),
    {
        match map_get(&self.table, &board) {
            Some(value) => {
                map_insert(
                    &mut self.table,
                    board,
                    TableValue { transposition: Some(score), repetition: value.repetition },
                );
            },
            None => {
                if self.has_room() {
                    map_insert(&mut self.table, board, TableValue { transposition: Some(score), repetition: false });
                }
            },
        }
    }

    /// Marks a position as lying on the line being searched. A position
    /// already in the table keeps its score; a new one is added only where
    /// there is room.
    pub fn insert_repetition(&mut self, board: HashableBoard)
        ensures
            final(self).limit() == old(self).limit(),
            old(self).entries().contains_key(board) ==> final(self).entries() == old(self).entries().insert(
                board,
                TableValue { transposition: old(self).entries()[board].transposition, repetition: true },
            ),
            !old(self).entries().contains_key(board) ==> exists|c: usize|
                c >= old(self).entries().len() && final(self).entries() == (if takes_new_entry(
                    old(self).entries().len() as int,
                    c as int,
                    old(self).limit() as int,
                ) {
                    old(self).entries().insert(board, TableValue { transposition: None, repetition: true })
                } else {
                    old(self).entries()
                }),
    {
        match map_get(&self.table, &board) {
            Some(value) => {
                map_insert(&mut self.table, board, TableValue { transposition: value.transposition, repetition: true });
            },
            None => {
                if self.has_room() {
                    map_insert(&mut self.table, board, TableValue { transposition: None, repetition: true });
                }
            },
        }
    }

    /// Takes the repetition mark off a position, if the table has it.
    pub fn remove_repetition(&mut self, board: &HashableBoard)
        ensures
            final(self).limit() == old(self).limit(),
            final(self).entries() == if old(self).entries().contains_key(*board) {
                old(self).entries().insert(
                    *board,
                    TableValue { transposition: old(self).entries()[*board].transposition, repetition: false },
                )
            } else {
                old(self).entries()
            },
    {
        match map_get(&self.table, board) {
            Some(value) => {
                map_insert(&mut self.table, *board, TableValue { transposition: value.transposition, repetition: false });
            },
            None => {},
        }
    }

    /// Empties the table, keeping its memory.
    pub fn clear(&mut self)
        ensures
            final(self).limit() == old(self).limit(),
            final(self).entries() == Map::<HashableBoard, TableValue>::empty(),
    {
        self.table.clear();
    }

    /// Empties the table and gives its memory back.
    pub fn clear_allocation(&mut self)
        ensures
            final(self).limit() == old(self).limit(),
            final(self).entries() == Map::<HashableBoard, TableValue>::empty(),
    {
        self.table = HashMap::default();
    }
}

} // verus!
