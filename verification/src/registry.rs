//! The named indexes of one database backend, with rows addressed by heap pointer.
//!
//! What the SQL functions decide is decided here; what they are handed by the
//! database, and how they report a failure to it, is left to the caller.
use turbovec::IdMapIndex;
use vstd::prelude::*;

use crate::exactness::{
    all_scored, law_filtered_search_gives_the_best, law_search_gives_the_best, ranks_among_by,
    ranks_by, scores_of,
};
use crate::fanout::{finds, finds_among};
use crate::idmap::{ConstructError, construct_error, index_ids};
use crate::laws::takes_in;
use crate::score::{Hit, value_of};
use crate::segment::SegmentedIndex;
use crate::state::{AddError, IndexState, Owner, routed};
use crate::tid::{
    block_of, law_pack_inverts_unpack, law_unpack_inverts_pack, law_unpack_reads_the_fields,
    offset_of, pack, packed, unpack,
};
use crate::topk::{is_top_k, law_what_the_best_are};

verus! {

/// A heap pointer: a block number and an item offset.
pub type HeapPointer = (u32, u16);

/// One row of an answer: where the row is, and the bit pattern of its score.
pub type Row = (HeapPointer, u32);

/// Which SQL argument is at fault.
#[derive(Clone, Copy, Debug, PartialEq, Eq, Structural)]
pub enum Argument {
    /// The dimension.
    Dim,
    /// The bit width.
    BitWidth,
    /// The cap of the hot segment.
    MaxHot,
    /// The number of rows asked for.
    K,
}

/// Why an index was not created.
#[derive(Clone, Copy, Debug, PartialEq, Eq, Structural)]
pub enum CreateError {
    /// A number is negative.
    Negative(Argument, i32),
    /// No index can have these dimensions.
    Construct(ConstructError),
    /// There is an index of this name.
    AlreadyExists,
}

/// Why a row was not added; `E` is how the encoder reports a failure.
#[derive(Debug)]
pub enum RowError<E> {
    /// There is no index of this name.
    NoSuchIndex,
    /// The index did not take the vector.
    Add(AddError<E>),
}

/// Why there is no answer to a search.
#[derive(Clone, Copy, Debug, PartialEq, Eq, Structural)]
pub enum QueryError {
    /// A number is negative.
    Negative(Argument, i32),
    /// There is no index of this name.
    NoSuchIndex,
}

/// A SQL integer as a size; `None` where it is negative.
pub fn usize_arg(v: i32) -> (r: Option<usize>)
    ensures
        match r {
            Some(n) => n == v,
            None => v < 0,
        },
{
    if v < 0 {
        None
    } else {
        Some(v as usize)
    }
}

/// The id of a heap pointer.
pub open spec fn id_of(pointer: HeapPointer) -> u64 {
    packed(pointer.0, pointer.1) as u64
}

/// The ids of a list of heap pointers.
pub open spec fn ids_at(pointers: Seq<HeapPointer>) -> Seq<u64> {
    pointers.map_values(|p: HeapPointer| id_of(p))
}

/// The row that a hit stands for.
pub open spec fn is_row_of(row: Row, hit: Hit) -> bool {
    &&& row.0.0 == block_of(hit.0)
    &&& row.0.1 == offset_of(hit.0)
    &&& row.1 == hit.1
}

/// The rows that a list of hits stands for, in the same order.
pub open spec fn are_rows_of(rows: Seq<Row>, hits: Seq<Hit>) -> bool {
    &&& rows.len() == hits.len()
    &&& forall|i: int| 0 <= i < rows.len() ==> is_row_of(#[trigger] rows[i], hits[i])
}

/// A hit for the id of a heap pointer comes back as a row at that pointer, so that an
/// answer joins straight back to the table.
pub proof fn law_a_row_comes_back(pointer: HeapPointer, hit: Hit, row: Row)
    requires
        hit.0 == id_of(pointer),
        is_row_of(row, hit),
    ensures
        row.0 == pointer,
{
    law_unpack_inverts_pack(pointer.0, pointer.1, hit.0);
}

/// The ids of a list of heap pointers are those of all of its pointers, one for each and in
/// the same order: the block number times 2^16, plus the offset.
pub proof fn law_every_pointer_has_its_id(pointers: Seq<HeapPointer>)
    ensures
        forall|p: HeapPointer| #[trigger] id_of(p) == p.0 * 0x1_0000 + p.1,
        ids_at(pointers).len() == pointers.len(),
        forall|i: int|
            0 <= i < pointers.len() ==> #[trigger] ids_at(pointers)[i] == pointers[i].0 * 0x1_0000
                + pointers[i].1,
        ids_at(pointers).to_set() == Set::new(
            |id: u64|
                exists|i: int|
                    0 <= i < pointers.len() && (#[trigger] pointers[i]).0 * 0x1_0000
                        + pointers[i].1 == id,
        ),
{
    let listed = Set::new(
        |id: u64|
            exists|i: int|
                0 <= i < pointers.len() && (#[trigger] pointers[i]).0 * 0x1_0000 + pointers[i].1
                    == id,
    );
    assert forall|id: u64| ids_at(pointers).to_set().contains(id) <==> listed.contains(id) by {
        if ids_at(pointers).contains(id) {
            let i = ids_at(pointers).index_of(id);
            assert(pointers[i].0 * 0x1_0000 + pointers[i].1 == id);
        }
        if listed.contains(id) {
            let i = choose|i: int|
                0 <= i < pointers.len() && (#[trigger] pointers[i]).0 * 0x1_0000 + pointers[i].1
                    == id;
            assert(ids_at(pointers)[i] == id);
        }
    }
    assert(ids_at(pointers).to_set() =~= listed);
}

/// A row has the score of its hit and stands where the low 48 bits of the hit's id say: the
/// block number above, the offset in the low 16.
pub proof fn law_what_a_row_says(row: Row, hit: Hit)
    ensures
        is_row_of(row, hit) <==> {
            &&& row.0.0 == ((hit.0 >> 16) & 0xFFFF_FFFF)
            &&& row.0.1 == hit.0 & 0xFFFF
            &&& row.1 == hit.1
        },
        is_row_of(row, hit) && hit.0 < 0x1_0000_0000_0000 ==> hit == (
            (row.0.0 * 0x1_0000 + row.0.1) as u64,
            row.1,
        ),
{
    law_unpack_reads_the_fields(hit.0);
    if is_row_of(row, hit) && hit.0 < 0x1_0000_0000_0000 {
        law_pack_inverts_unpack(hit.0, row.0.0, row.0.1);
    }
}

/// An answer has one row for each hit, in the same order, with the hit's score and at the
/// heap pointer in the hit's id.
pub proof fn law_every_hit_has_its_row(rows: Seq<Row>, hits: Seq<Hit>)
    ensures
        are_rows_of(rows, hits) <==> {
            &&& rows.len() == hits.len()
            &&& forall|i: int|
                0 <= i < hits.len() ==> {
                    &&& rows[i].1 == (#[trigger] hits[i]).1
                    &&& rows[i].0.0 == ((hits[i].0 >> 16) & 0xFFFF_FFFF)
                    &&& rows[i].0.1 == hits[i].0 & 0xFFFF
                }
        },
{
    assert forall|i: int| 0 <= i < hits.len() implies (is_row_of(rows[i], #[trigger] hits[i])
        <==> rows[i].1 == hits[i].1 && rows[i].0.0 == ((hits[i].0 >> 16) & 0xFFFF_FFFF)
        && rows[i].0.1 == hits[i].0 & 0xFFFF) by {
        law_what_a_row_says(rows[i], hits[i]);
    }
    if are_rows_of(rows, hits) {
        assert forall|i: int| 0 <= i < hits.len() implies is_row_of(
            rows[i],
            #[trigger] hits[i],
        ) by {
            assert(is_row_of(rows[i], hits[i]));
        }
    }
}

/// Where every hit is for the id of a heap pointer, rows and hits carry the same: each
/// row's pointer and score give its hit back.
proof fn lemma_hits_at(rows: Seq<Row>, hits: Seq<Hit>)
    requires
        are_rows_of(rows, hits),
        forall|i: int| 0 <= i < hits.len() ==> (#[trigger] hits[i]).0 < 0x1_0000_0000_0000,
    ensures
        hits == Seq::new(
            rows.len(),
            |i: int| ((rows[i].0.0 * 0x1_0000 + rows[i].0.1) as u64, rows[i].1),
        ),
{
    let given = Seq::new(
        rows.len(),
        |i: int| ((rows[i].0.0 * 0x1_0000 + rows[i].0.1) as u64, rows[i].1),
    );
    assert forall|i: int| 0 <= i < rows.len() implies hits[i] == given[i] by {
        assert(is_row_of(rows[i], hits[i]));
        law_what_a_row_says(rows[i], hits[i]);
    }
    assert(hits =~= given);
}

/// A search answers with the `k` nearest rows: where every indexed vector stands for a heap
/// pointer, the pointers and scores of its rows are the `k` best of all indexed ones.
pub proof fn law_a_search_answers_with_the_nearest_rows<F>(
    state: IndexState,
    ask: F,
    score: spec_fn(Seq<u8>) -> u32,
    k: usize,
    rows: Seq<Row>,
) where F: Fn(&IdMapIndex, usize) -> Vec<Hit>
    requires
        state.consistent(),
        all_scored(state, score),
        ranks_by(ask, state, score, k),
        forall|id: u64| #[trigger] state.owner.contains_key(id) ==> id < 0x1_0000_0000_0000,
        exists|hits: Seq<Hit>|
            finds(ask, state.segments(), k, hits) && #[trigger] are_rows_of(rows, hits),
    ensures
        is_top_k(
            Seq::new(
                rows.len(),
                |i: int| ((rows[i].0.0 * 0x1_0000 + rows[i].0.1) as u64, rows[i].1),
            ),
            state.owner.dom(),
            |id: u64| score(state.vectors()[id]),
            k as nat,
        ),
{
    let hits = choose|hits: Seq<Hit>|
        finds(ask, state.segments(), k, hits) && #[trigger] are_rows_of(rows, hits);
    law_search_gives_the_best(state, ask, score, k, hits);
    assert forall|i: int| 0 <= i < hits.len() implies (#[trigger] hits[i]).0
        < 0x1_0000_0000_0000 by {
        assert(state.owner.contains_key(hits[i].0));
    }
    lemma_hits_at(rows, hits);
    assert(scores_of(state, score) =~= (|id: u64| score(state.vectors()[id])));
}

/// A filtered search answers with the `k` nearest of the allowed rows: where every indexed
/// vector stands for a heap pointer, the pointers and scores of its rows are the `k` best of
/// the indexed pointers that are listed, however long the list is.
pub proof fn law_a_filtered_search_answers_with_the_nearest_allowed_rows<F>(
    state: IndexState,
    ask: F,
    score: spec_fn(Seq<u8>) -> u32,
    k: usize,
    allowed: Seq<HeapPointer>,
    rows: Seq<Row>,
) where F: Fn(&IdMapIndex, usize, &[u64]) -> Vec<Hit>
    requires
        state.consistent(),
        all_scored(state, score),
        ranks_among_by(ask, state, score, k),
        forall|id: u64| #[trigger] state.owner.contains_key(id) ==> id < 0x1_0000_0000_0000,
        exists|hits: Seq<Hit>|
            finds_among(ask, state, k, ids_at(allowed), hits) && #[trigger] are_rows_of(rows, hits),
    ensures
        is_top_k(
            Seq::new(
                rows.len(),
                |i: int| ((rows[i].0.0 * 0x1_0000 + rows[i].0.1) as u64, rows[i].1),
            ),
            Set::new(
                |id: u64|
                    state.owner.contains_key(id) && exists|j: int|
                        0 <= j < allowed.len() && (#[trigger] allowed[j]).0 * 0x1_0000
                            + allowed[j].1 == id,
            ),
            |id: u64| score(state.vectors()[id]),
            k as nat,
        ),
{
    let hits = choose|hits: Seq<Hit>|
        finds_among(ask, state, k, ids_at(allowed), hits) && #[trigger] are_rows_of(rows, hits);
    law_filtered_search_gives_the_best(state, ask, score, k, ids_at(allowed), hits);
    let wanted = Set::new(
        |id: u64|
            state.owner.contains_key(id) && exists|j: int|
                0 <= j < allowed.len() && (#[trigger] allowed[j]).0 * 0x1_0000 + allowed[j].1
                    == id,
    );
    law_every_pointer_has_its_id(allowed);
    assert(ids_at(allowed).to_set().intersect(state.ids()) =~= wanted);
    assert forall|i: int| 0 <= i < hits.len() implies (#[trigger] hits[i]).0
        < 0x1_0000_0000_0000 by {
        assert(wanted.contains(hits[i].0));
    }
    lemma_hits_at(rows, hits);
    assert(scores_of(state, score) =~= (|id: u64| score(state.vectors()[id])));
}

/// What the rows of a search are, one by one: no row stands twice, each has the score of
/// its own vector, none scores more than the one before it, and a row that was left out
/// scores no more than any that is there.
pub proof fn law_no_nearer_row_is_left_out<F>(
    state: IndexState,
    ask: F,
    score: spec_fn(Seq<u8>) -> u32,
    k: usize,
    rows: Seq<Row>,
    pointer: HeapPointer,
    i: int,
    j: int,
) where F: Fn(&IdMapIndex, usize) -> Vec<Hit>
    requires
        state.consistent(),
        all_scored(state, score),
        ranks_by(ask, state, score, k),
        forall|id: u64| #[trigger] state.owner.contains_key(id) ==> id < 0x1_0000_0000_0000,
        exists|hits: Seq<Hit>|
            finds(ask, state.segments(), k, hits) && #[trigger] are_rows_of(rows, hits),
        0 <= i <= j < rows.len(),
    ensures
        rows.len() == if k < state.owner.dom().len() {
            k as nat
        } else {
            state.owner.dom().len()
        },
        i < j ==> rows[i].0 != rows[j].0,
        value_of(rows[i].1) >= value_of(rows[j].1),
        ({
            let id = (rows[i].0.0 * 0x1_0000 + rows[i].0.1) as u64;
            state.owner.contains_key(id) && rows[i].1 == score(state.vectors()[id])
        }),
        ({
            let id = (pointer.0 * 0x1_0000 + pointer.1) as u64;
            state.owner.contains_key(id) && (forall|n: int|
                0 <= n < rows.len() ==> (#[trigger] rows[n]).0 != pointer) ==> value_of(
                score(state.vectors()[id]),
            ) <= value_of(rows[j].1)
        }),
{
    law_a_search_answers_with_the_nearest_rows(state, ask, score, k, rows);
    let by_id = |id: u64| score(state.vectors()[id]);
    let hits = Seq::new(
        rows.len(),
        |i: int| ((rows[i].0.0 * 0x1_0000 + rows[i].0.1) as u64, rows[i].1),
    );
    law_what_the_best_are(hits, state.owner.dom(), by_id, k as nat);
    assert(i < j ==> hits[i].0 != hits[j].0);
    assert(value_of(hits[i].1) >= value_of(hits[j].1));
    let id = (pointer.0 * 0x1_0000 + pointer.1) as u64;
    if forall|n: int| 0 <= n < rows.len() ==> (#[trigger] rows[n]).0 != pointer {
        assert forall|n: int| 0 <= n < hits.len() implies (#[trigger] hits[n]).0 != id by {
            assert(rows[n].0 != pointer);
        }
        assert(state.owner.contains_key(id) ==> value_of(by_id(id)) <= value_of(hits[j].1));
    }
}

/// Adding a row keeps it so that every indexed vector stands for a heap pointer, and makes
/// that row one of them.
pub proof fn law_every_vector_stands_for_a_row(
    before: IndexState,
    row: HeapPointer,
    hot: IdMapIndex,
    after: IndexState,
)
    requires
        before.consistent(),
        forall|id: u64| #[trigger] before.owner.contains_key(id) ==> id < 0x1_0000_0000_0000,
        before.added_as(hot, seq![id_of(row)], after),
    ensures
        forall|id: u64| #[trigger] after.owner.contains_key(id) ==> id < 0x1_0000_0000_0000,
        after.owner.contains_key((row.0 * 0x1_0000 + row.1) as u64),
{
    let ids = seq![id_of(row)];
    assert(ids[0] == row.0 * 0x1_0000 + row.1);
    assert(ids.to_set().contains(ids[0]));
    assert forall|id: u64| #[trigger] after.owner.contains_key(id) implies id
        < 0x1_0000_0000_0000 by {
        if !before.owner.contains_key(id) {
            if before.hot_ids.contains(id) {
                assert(before.owned(Owner::Hot).contains(id));
            }
            assert(ids.contains(id));
        }
    }
}

/// Why an index is created or not: exactly where the three numbers are not negative, the
/// dimension is a positive multiple of 8 up to 16384, the bit width is 2, 3 or 4 and the
/// name is free, it is. Every refusal names a number or a name that is at fault.
pub proof fn law_an_index_is_refused_only_for_cause(
    indexes: Map<Seq<char>, IndexState>,
    name: Seq<char>,
    dim: i32,
    bit_width: i32,
    max_hot: i32,
)
    ensures
        create_error(indexes, name, dim, bit_width, max_hot) is None <==> {
            &&& 0 < dim <= 16384
            &&& dim % 8 == 0
            &&& bit_width == 2 || bit_width == 3 || bit_width == 4
            &&& max_hot >= 0
            &&& !indexes.contains_key(name)
        },
        match create_error(indexes, name, dim, bit_width, max_hot) {
            None => true,
            Some(CreateError::Negative(Argument::Dim, n)) => n == dim && n < 0,
            Some(CreateError::Negative(Argument::BitWidth, n)) => n == bit_width && n < 0 && dim
                >= 0,
            Some(CreateError::Negative(Argument::MaxHot, n)) => n == max_hot && n < 0 && dim >= 0
                && bit_width >= 0,
            Some(CreateError::Negative(Argument::K, n)) => false,
            Some(CreateError::Construct(e)) => {
                &&& dim >= 0 && bit_width >= 0 && max_hot >= 0
                &&& match e {
                    ConstructError::BitWidthOutOfRange(b) => b == bit_width && !(2 <= b <= 4),
                    ConstructError::DimNotPositiveMultipleOf8(d) => d == dim && (d == 0 || d % 8
                        != 0) && 2 <= bit_width <= 4,
                    ConstructError::DimTooLarge { dim: d, max } => d == dim && d > 16384 && max
                        == 16384 && d % 8 == 0 && 2 <= bit_width <= 4,
                    ConstructError::Other => false,
                }
            },
            Some(CreateError::AlreadyExists) => {
                &&& indexes.contains_key(name)
                &&& 0 < dim <= 16384
                &&& dim % 8 == 0
                &&& 2 <= bit_width <= 4
                &&& max_hot >= 0
            },
        },
{
}

/// A search has an answer exactly where `k` is not negative and there is an index of the
/// name; a negative `k` is reported before a missing index.
pub proof fn law_a_search_is_refused_only_for_cause(
    indexes: Map<Seq<char>, IndexState>,
    name: Seq<char>,
    k: i32,
)
    ensures
        query_error(indexes, name, k) is None <==> k >= 0 && indexes.contains_key(name),
        query_error(indexes, name, k) == Some(QueryError::NoSuchIndex) <==> k >= 0
            && !indexes.contains_key(name),
        query_error(indexes, name, k) == Some(QueryError::Negative(Argument::K, k)) <==> k < 0,
{
}

/// The rows that a list of hits stands for.
fn rows(hits: &Vec<Hit>) -> (rows: Vec<Row>)
    ensures
        are_rows_of(rows@, hits@),
{
    let mut rows: Vec<Row> = Vec::with_capacity(hits.len());
    let mut i: usize = 0;
    while i < hits.len()
        invariant
            i <= hits.len(),
            rows.len() == i,
            forall|j: int| 0 <= j < i ==> is_row_of(#[trigger] rows@[j], hits@[j]),
        decreases hits.len() - i,
    {
        let (id, score): Hit = hits[i];
        rows.push((unpack(id), score));
        i += 1;
    }
    rows
}

/// The ids of a list of heap pointers.
fn ids(pointers: &[HeapPointer]) -> (ids: Vec<u64>)
    ensures
        ids@ == ids_at(pointers@),
{
    let mut ids: Vec<u64> = Vec::with_capacity(pointers.len());
    let mut i: usize = 0;
    while i < pointers.len()
        invariant
            i <= pointers.len(),
            ids.len() == i,
            forall|j: int| 0 <= j < i ==> #[trigger] ids@[j] == id_of(pointers@[j]),
        decreases pointers.len() - i,
    {
        let (block, offset): HeapPointer = pointers[i];
        ids.push(pack(block, offset));
        i += 1;
    }
    assert(ids@ =~= ids_at(pointers@));
    ids
}

/// Why an index of these dimensions cannot be created under this name, where it
/// cannot.
pub open spec fn create_error(
    indexes: Map<Seq<char>, IndexState>,
    name: Seq<char>,
    dim: i32,
    bit_width: i32,
    max_hot: i32,
) -> Option<CreateError> {
    if dim < 0 {
        Some(CreateError::Negative(Argument::Dim, dim))
    } else if bit_width < 0 {
        Some(CreateError::Negative(Argument::BitWidth, bit_width))
    } else if max_hot < 0 {
        Some(CreateError::Negative(Argument::MaxHot, max_hot))
    } else {
        match construct_error(dim as usize, bit_width as usize) {
            Some(e) => Some(CreateError::Construct(e)),
            None => if indexes.contains_key(name) {
                Some(CreateError::AlreadyExists)
            } else {
                None
            },
        }
    }
}

/// Why a search for `k` rows in the index of this name has no answer, where it has
/// none.
pub open spec fn query_error(
    indexes: Map<Seq<char>, IndexState>,
    name: Seq<char>,
    k: i32,
) -> Option<QueryError> {
    if k < 0 {
        Some(QueryError::Negative(Argument::K, k))
    } else if !indexes.contains_key(name) {
        Some(QueryError::NoSuchIndex)
    } else {
        None
    }
}

/// The named indexes of one backend.
pub struct Registry {
    entries: Vec<(String, SegmentedIndex)>,
}

impl View for Registry {
    type V = Map<Seq<char>, IndexState>;

    closed spec fn view(&self) -> Map<Seq<char>, IndexState> {
        Map::new(
            |name: Seq<char>|
                exists|i: int|
                    0 <= i < self.entries@.len() && (#[trigger] self.entries@[i]).0@ == name,
            |name: Seq<char>|
                self.entries@[choose|i: int|
                    0 <= i < self.entries@.len() && (#[trigger] self.entries@[i]).0@ == name].1@,
        )
    }
}

impl Registry {
    /// No two entries share a name.
    pub closed spec fn well_formed(self) -> bool {
        forall|i: int, j: int|
            0 <= i < j < self.entries@.len() ==> (#[trigger] self.entries@[i]).0@ != (
            #[trigger] self.entries@[j]).0@
    }

    proof fn lemma_entry(self, i: int)
        requires
            self.well_formed(),
            0 <= i < self.entries@.len(),
        ensures
            self@.contains_key(self.entries@[i].0@),
            self@[self.entries@[i].0@] == self.entries@[i].1@,
    {
    }

    /// No indexes.
    pub fn new() -> (r: Self)
        ensures
            r.well_formed(),
            r@ == Map::<Seq<char>, IndexState>::empty(),
    {
        let r: Self = Self { entries: Vec::new() };
        assert(r@ =~= Map::empty());
        r
    }

    /// The position of the entry of this name.
    fn position(&self, name: &str) -> (r: Option<usize>)
        requires
            self.well_formed(),
        ensures
            match r {
                Some(i) => {
                    &&& i < self.entries@.len()
                    &&& self.entries@[i as int].0@ == name@
                    &&& self@.contains_key(name@)
                    &&& self@[name@] == self.entries@[i as int].1@
                },
                None => !self@.contains_key(name@),
            },
    {
        let key: String = name.to_owned();
        let mut i: usize = 0;
        while i < self.entries.len()
            invariant
                i <= self.entries.len(),
                key@ == name@,
                self.well_formed(),
                forall|j: int| 0 <= j < i ==> (#[trigger] self.entries@[j]).0@ != name@,
            decreases self.entries.len() - i,
        {
            if self.entries[i].0 == key {
                proof {
                    self.lemma_entry(i as int);
                }
                return Some(i);
            }
            i += 1;
        }
        None
    }

    /// `other` differs from this in the index of entry `i` alone.
    spec fn is_replaced(self, other: Registry, i: int) -> bool {
        &&& 0 <= i < self.entries@.len()
        &&& other.entries@.len() == self.entries@.len()
        &&& forall|j: int|
            0 <= j < self.entries@.len() && j != i ==> #[trigger] other.entries@[j]
                == self.entries@[j]
        &&& other.entries@[i].0@ == self.entries@[i].0@
    }

    proof fn lemma_replaced(self, other: Registry, i: int)
        requires
            self.well_formed(),
            self.is_replaced(other, i),
        ensures
            other.well_formed(),
            other@ == self@.insert(self.entries@[i].0@, other.entries@[i].1@),
    {
        assert forall|j: int, k: int| 0 <= j < k < other.entries@.len() implies (
        #[trigger] other.entries@[j]).0@ != (#[trigger] other.entries@[k]).0@ by {
            assert(self.entries@[j].0@ != self.entries@[k].0@);
        }
        let wanted = self@.insert(self.entries@[i].0@, other.entries@[i].1@);
        assert forall|name: Seq<char>| other@.contains_key(name) <==> wanted.contains_key(name) by {
            if other@.contains_key(name) {
                let j = choose|j: int|
                    0 <= j < other.entries@.len() && (#[trigger] other.entries@[j]).0@ == name;
                assert(self.entries@[j].0@ == name);
            }
            if self@.contains_key(name) {
                let j = choose|j: int|
                    0 <= j < self.entries@.len() && (#[trigger] self.entries@[j]).0@ == name;
                assert(other.entries@[j].0@ == name);
            }
            assert(other.entries@[i].0@ == self.entries@[i].0@);
        }
        assert forall|name: Seq<char>| other@.contains_key(name) implies other@[name]
            == wanted[name] by {
            let j = choose|j: int|
                0 <= j < other.entries@.len() && (#[trigger] other.entries@[j]).0@ == name;
            other.lemma_entry(j);
            self.lemma_entry(j);
            assert(self.entries@[j].0@ == name);
            if j != i {
                assert(self.entries@[i].0@ != self.entries@[j].0@);
            }
        }
        assert(other@ =~= wanted);
    }

    /// The index of this name.
    pub fn get(&self, name: &str) -> (r: Option<&SegmentedIndex>)
        requires
            self.well_formed(),
        ensures
            match r {
                Some(index) => self@.contains_key(name@) && index@ == self@[name@],
                None => !self@.contains_key(name@),
            },
    {
        match self.position(name) {
            Some(i) => Some(&self.entries[i].1),
            None => None,
        }
    }

    /// Put an index under this name, in place of the one that was there.
    pub fn insert(&mut self, name: &str, index: SegmentedIndex)
        requires
            old(self).well_formed(),
        ensures
            final(self).well_formed(),
            final(self)@ == old(self)@.insert(name@, index@),
    {
        let ghost before: Registry = *self;
        match self.position(name) {
            Some(i) => {
                self.entries.set(i, (name.to_owned(), index));
                proof {
                    before.lemma_replaced(*self, i as int);
                }
            },
            None => {
                self.entries.push((name.to_owned(), index));
                proof {
                    let wanted = before@.insert(name@, index@);
                    let n = before.entries@.len() as int;
                    assert forall|j: int| 0 <= j < n implies (#[trigger] self.entries@[j]).0@
                        != name@ by {
                        before.lemma_entry(j);
                        assert(self.entries@[j] == before.entries@[j]);
                    }
                    assert forall|j: int, k: int| 0 <= j < k < self.entries@.len() implies (
                    #[trigger] self.entries@[j]).0@ != (#[trigger] self.entries@[k]).0@ by {
                        if k < n {
                            assert(before.entries@[j].0@ != before.entries@[k].0@);
                        }
                    }
                    assert forall|x: Seq<char>| self@.contains_key(x) <==> wanted.contains_key(
                        x,
                    ) by {
                        if before@.contains_key(x) {
                            let j = choose|j: int|
                                0 <= j < n && (#[trigger] before.entries@[j]).0@ == x;
                            assert(self.entries@[j].0@ == x);
                        }
                        assert(self.entries@[n].0@ == name@);
                        if self@.contains_key(x) && x != name@ {
                            let j = choose|j: int|
                                0 <= j < self.entries@.len() && (#[trigger] self.entries@[j]).0@
                                    == x;
                            assert(before.entries@[j].0@ == x);
                        }
                    }
                    assert forall|x: Seq<char>| self@.contains_key(x) implies self@[x]
                        == wanted[x] by {
                        let j = choose|j: int|
                            0 <= j < self.entries@.len() && (#[trigger] self.entries@[j]).0@ == x;
                        self.lemma_entry(j);
                        if j < n {
                            before.lemma_entry(j);
                        }
                    }
                    assert(self@ =~= wanted);
                }
            },
        }
    }

    /// The index of this name, to be changed.
    pub fn get_mut(&mut self, name: &str) -> (r: Option<&mut SegmentedIndex>)
        requires
            old(self).well_formed(),
        ensures
            final(self).well_formed(),
            match r {
                Some(index) => {
                    &&& old(self)@.contains_key(name@)
                    &&& index@ == old(self)@[name@]
                    &&& final(self)@ == old(self)@.insert(name@, final(index)@)
                },
                None => !old(self)@.contains_key(name@) && final(self)@ == old(self)@,
            },
    {
        let ghost before: Registry = *self;
        match self.position(name) {
            Some(i) => {
                proof {
                    assert forall|other: Registry|
                        #![trigger other@]
                        before.is_replaced(other, i as int) implies other@ == before@.insert(
                        name@,
                        other.entries@[i as int].1@,
                    ) by {
                        before.lemma_replaced(other, i as int);
                    }
                }
                Some(&mut self.entries[i].1)
            },
            None => None,
        }
    }

    /// Create an empty index under this name.
    pub fn create(&mut self, name: &str, dim: i32, bit_width: i32, max_hot: i32) -> (r: Result<
        (),
        CreateError,
    >)
        requires
            old(self).well_formed(),
        ensures
            final(self).well_formed(),
            match r {
                Ok(()) => {
                    &&& create_error(old(self)@, name@, dim, bit_width, max_hot) is None
                    &&& final(self)@ == old(self)@.insert(name@, final(self)@[name@])
                    &&& final(self)@[name@].is_fresh(
                        dim as usize,
                        bit_width as usize,
                        max_hot as usize,
                    )
                },
                Err(e) => {
                    &&& create_error(old(self)@, name@, dim, bit_width, max_hot) == Some(e)
                    &&& final(self)@ == old(self)@
                },
            },
    {
        let d: usize = match usize_arg(dim) {
            Some(d) => d,
            None => {
                return Err(CreateError::Negative(Argument::Dim, dim));
            },
        };
        let b: usize = match usize_arg(bit_width) {
            Some(b) => b,
            None => {
                return Err(CreateError::Negative(Argument::BitWidth, bit_width));
            },
        };
        let m: usize = match usize_arg(max_hot) {
            Some(m) => m,
            None => {
                return Err(CreateError::Negative(Argument::MaxHot, max_hot));
            },
        };
        let index: SegmentedIndex = match SegmentedIndex::new(d, b, m) {
            Ok(index) => index,
            Err(e) => {
                return Err(CreateError::Construct(e));
            },
        };
        match self.position(name) {
            Some(_) => {
                return Err(CreateError::AlreadyExists);
            },
            None => {},
        }
        self.insert(name, index);
        Ok(())
    }

    /// Add one row's vector of `vectors_len` coordinates, addressed by where the row
    /// is. `encode` is as for `SegmentedIndex::add`.
    pub fn add<F, E>(&mut self, name: &str, row: HeapPointer, vectors_len: usize, encode: F) -> (r:
        Result<(), RowError<E>>) where F: FnOnce(&mut IdMapIndex, usize, &[u64]) -> Result<(), E>
        requires
            old(self).well_formed(),
            old(self)@.contains_key(name@) ==> old(self)@[name@].well_formed(),
            old(self)@.contains_key(name@) && old(self)@[name@].refusal::<E>(
                vectors_len,
                seq![id_of(row)],
            ) is None ==> forall|
                hot: &mut IdMapIndex,
                ids: &[u64],
                encoded: Result<(), E>,
            |
                *hot == old(self)@[name@].hot && ids@ == seq![id_of(row)]
                    && #[trigger] call_ensures(
                    encode,
                    (hot, old(self)@[name@].dim, ids),
                    encoded,
                ) && encoded is Ok && index_ids(*final(hot)).len() >= old(self)@[name@].max_hot
                    && index_ids(*final(hot)) != Set::<u64>::empty()
                    ==> old(self)@[name@].sealable(),
            old(self)@.contains_key(name@) && old(self)@[name@].refusal::<E>(
                vectors_len,
                seq![id_of(row)],
            ) is None ==> forall|hot: &mut IdMapIndex, ids: &[u64]|
                *hot == old(self)@[name@].hot && ids@ == seq![id_of(row)]
                    ==> #[trigger] call_requires(encode, (hot, old(self)@[name@].dim, ids)),
        ensures
            final(self).well_formed(),
            r == Err::<(), RowError<E>>(RowError::NoSuchIndex) <==> !old(self)@.contains_key(name@),
            !old(self)@.contains_key(name@) ==> final(self)@ == old(self)@,
            old(self)@.contains_key(name@) ==> final(self)@ == old(self)@.insert(
                name@,
                final(self)@[name@],
            ),
            old(self)@.contains_key(name@) ==> final(self)@[name@].well_formed(),
            old(self)@.contains_key(name@) ==> match old(self)@[name@].refusal::<E>(
                vectors_len,
                seq![id_of(row)],
            ) {
                Some(e) => r == Err::<(), RowError<E>>(RowError::Add(e)) && final(self)@
                    == old(self)@,
                None => exists|hot: &mut IdMapIndex, ids: &[u64], encoded: Result<(), E>|
                    {
                        &&& *hot == old(self)@[name@].hot
                        &&& ids@ == seq![id_of(row)]
                        &&& #[trigger] call_ensures(
                            encode,
                            (hot, old(self)@[name@].dim, ids),
                            encoded,
                        )
                        &&& match encoded {
                            Ok(()) => {
                                &&& r is Ok
                                &&& old(self)@[name@].added_as(
                                    *final(hot),
                                    ids@,
                                    final(self)@[name@],
                                )
                                &&& old(self)@[name@].consistent() && takes_in(
                                    *hot,
                                    ids@,
                                    *final(hot),
                                ) ==> final(self)@[name@].consistent()
                            },
                            Err(e) => r == Err::<(), RowError<E>>(
                                RowError::Add(AddError::Segment(e)),
                            ) && final(self)@[name@] == (IndexState {
                                hot: *final(hot),
                                ..old(self)@[name@]
                            }),
                        }
                    },
            },
    {
        let id: u64 = pack(row.0, row.1);
        let mut ids: Vec<u64> = Vec::new();
        ids.push(id);
        assert(ids@ =~= seq![id_of(row)]);
        match self.get_mut(name) {
            Some(index) => match index.add(vectors_len, ids.as_slice(), encode) {
                Ok(()) => Ok(()),
                Err(e) => Err(RowError::Add(e)),
            },
            None => Err(RowError::NoSuchIndex),
        }
    }

    /// Remove the vector of a row, and say whether it was there; `None` where there is
    /// no index of this name.
    pub fn delete(&mut self, name: &str, row: HeapPointer) -> (r: Option<bool>)
        requires
            old(self).well_formed(),
            old(self)@.contains_key(name@) ==> old(self)@[name@].well_formed()
                && old(self)@[name@].routes(id_of(row)),
        ensures
            final(self).well_formed(),
            match r {
                Some(removed) => {
                    &&& old(self)@.contains_key(name@)
                    &&& final(self)@ == old(self)@.insert(name@, final(self)@[name@])
                    &&& final(self)@[name@].well_formed()
                    &&& old(self)@[name@].removed_as(id_of(row), removed, final(self)@[name@])
                    &&& old(self)@[name@].consistent() ==> final(self)@[name@].consistent()
                        && removed == old(self)@[name@].ids().contains(id_of(row))
                },
                None => !old(self)@.contains_key(name@) && final(self)@ == old(self)@,
            },
    {
        let id: u64 = pack(row.0, row.1);
        match self.get_mut(name) {
            Some(index) => Some(index.remove(id)),
            None => None,
        }
    }

    /// The `k` nearest rows for a query of `query_len` coordinates, best first. `ask`
    /// is as for `SegmentedIndex::search`.
    pub fn search<F>(&self, name: &str, query_len: usize, k: i32, ask: F) -> (r: Result<
        Vec<Row>,
        QueryError,
    >) where F: Fn(&IdMapIndex, usize) -> Vec<Hit>
        requires
            self.well_formed(),
            k >= 0 && self@.contains_key(name@) ==> query_len == self@[name@].dim,
            k > 0 && self@.contains_key(name@) ==> forall|i: int|
                0 <= i < self@[name@].segments().len() && index_ids(
                    #[trigger] self@[name@].segments()[i],
                ) != Set::<u64>::empty() ==> call_requires(
                    ask,
                    (&self@[name@].segments()[i], k as usize),
                ),
        ensures
            query_error(self@, name@, k) is None <==> r is Ok,
            r matches Err(e) ==> query_error(self@, name@, k) == Some(e),
            r matches Ok(rows) ==> exists|hits: Seq<Hit>|
                finds(ask, self@[name@].segments(), k as usize, hits) && #[trigger] are_rows_of(
                    rows@,
                    hits,
                ),
    {
        let n: usize = match usize_arg(k) {
            Some(n) => n,
            None => {
                return Err(QueryError::Negative(Argument::K, k));
            },
        };
        let index: &SegmentedIndex = match self.get(name) {
            Some(index) => index,
            None => {
                return Err(QueryError::NoSuchIndex);
            },
        };
        assert(n == k as usize);
        let hits: Vec<Hit> = index.search(query_len, n, ask);
        let r: Result<Vec<Row>, QueryError> = Ok(rows(&hits));
        assert(are_rows_of(r->Ok_0@, hits@));
        r
    }

    /// The `k` nearest rows among the allowed ones, for a query of `query_len`
    /// coordinates, best first. A row that is not indexed is ignored. `ask` is as for
    /// `SegmentedIndex::search_with_allowlist`.
    pub fn search_filtered<F>(
        &self,
        name: &str,
        query_len: usize,
        k: i32,
        allowed: &[HeapPointer],
        ask: F,
    ) -> (r: Result<Vec<Row>, QueryError>) where F: Fn(&IdMapIndex, usize, &[u64]) -> Vec<Hit>
        requires
            self.well_formed(),
            k >= 0 && self@.contains_key(name@) ==> query_len == self@[name@].dim,
            k > 0 && self@.contains_key(name@) ==> forall|j: int|
                0 <= j < allowed@.len() ==> self@[name@].routes(id_of(#[trigger] allowed@[j])),
            k > 0 && self@.contains_key(name@) ==> forall|i: int, handed: &[u64]|
                0 <= i < self@[name@].segments().len() && handed@.len() > 0 && handed@ == routed(
                    ids_at(allowed@),
                    self@[name@].owner,
                    self@[name@].tag(i),
                ) ==> #[trigger] call_requires(
                    ask,
                    (&self@[name@].segments()[i], k as usize, handed),
                ),
        ensures
            query_error(self@, name@, k) is None <==> r is Ok,
            r matches Err(e) ==> query_error(self@, name@, k) == Some(e),
            r matches Ok(rows) ==> exists|hits: Seq<Hit>|
                finds_among(ask, self@[name@], k as usize, ids_at(allowed@), hits)
                    && #[trigger] are_rows_of(rows@, hits),
    {
        let n: usize = match usize_arg(k) {
            Some(n) => n,
            None => {
                return Err(QueryError::Negative(Argument::K, k));
            },
        };
        let allowed_ids: Vec<u64> = ids(allowed);
        let index: &SegmentedIndex = match self.get(name) {
            Some(index) => index,
            None => {
                return Err(QueryError::NoSuchIndex);
            },
        };
        assert(n == k as usize);
        let hits: Vec<Hit> = index.search_with_allowlist(
            query_len,
            n,
            allowed_ids.as_slice(),
            ask,
        );
        let r: Result<Vec<Row>, QueryError> = Ok(rows(&hits));
        assert(are_rows_of(r->Ok_0@, hits@));
        r
    }

    /// Number of live vectors in the index of this name.
    pub fn size(&self, name: &str) -> (r: Option<i64>)
        requires
            self.well_formed(),
        ensures
            match r {
                Some(n) => self@.contains_key(name@) && n == self@[name@].ids().len() as i64,
                None => !self@.contains_key(name@),
            },
    {
        match self.get(name) {
            Some(index) => Some(index.len() as i64),
            None => None,
        }
    }
}

} // verus!
