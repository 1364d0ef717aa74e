//! The canonical form of a position and its hash. Positions that differ
//! only in the order of their cascades or of their freecells have the same
//! canonical form, and so the same hash.

use vstd::prelude::*;
use vstd::relations::{sorted_by, total_ordering};
use crate::board::Board;
use crate::card::Card;
use crate::game::Game;
use crate::sequences::{
    lemma_map_keeps_multiset,
    lemma_map_reflects_multiset,
    lemma_swap_keeps_multiset,
};

verus! {

/// The start value of the hash (64-bit FNV-1a).
pub const HASH_OFFSET: u64 = 0xcbf29ce484222325;

/// The multiplier of the hash (64-bit FNV-1a).
pub const HASH_PRIME: u64 = 0x100000001b3;

/// The codes of the cards of a cascade, bottom to top.
pub open spec fn codes(column: Seq<Card>) -> Seq<u8> {
    Seq::new(column.len(), |i: int| column[i].code())
}

/// The code of a freecell as a row of one byte: the card's code, 0 for an
/// empty cell.
pub open spec fn cell_row(cell: Option<Card>) -> Seq<u8> {
    match cell {
        Some(card) => seq![card.code()],
        None => seq![0u8],
    }
}

/// Lexicographic order on rows of bytes: a row comes before another if it is
/// a prefix of it or has the smaller byte where they first differ.
pub open spec fn lex_le(a: Seq<u8>, b: Seq<u8>) -> bool
    decreases a.len(),
{
    if a.len() == 0 {
        true
    } else if b.len() == 0 {
        false
    } else if a[0] != b[0] {
        a[0] < b[0]
    } else {
        lex_le(a.skip(1), b.skip(1))
    }
}

/// The lexicographic order as a relation.
pub open spec fn lex_order() -> spec_fn(Seq<u8>, Seq<u8>) -> bool {
    |a: Seq<u8>, b: Seq<u8>| lex_le(a, b)
}

/// What identifies a position up to the order of its cascades and of its
/// freecells: the coded cascades in lexicographic order, the coded freecells
/// in order, and the foundation counters.
pub struct CanonicalKey {
    pub columns: Seq<Seq<u8>>,
    pub cells: Seq<Seq<u8>>,
    pub foundations: Seq<u8>,
}

/// One step of the hash: the word is folded in by exclusive or, then the
/// state is multiplied by the prime, modulo 2^64.
pub open spec fn mix(state: u64, word: u64) -> u64 {
    (state ^ word).wrapping_mul(HASH_PRIME)
}

/// The hash state after the bytes of a row have been folded in, first to
/// last.
pub open spec fn mix_bytes(state: u64, bytes: Seq<u8>) -> u64
    decreases bytes.len(),
{
    if bytes.len() == 0 {
        state
    } else {
        mix(mix_bytes(state, bytes.drop_last()), bytes.last() as u64)
    }
}

/// The hash state after rows have been folded in, first to last: of each row
/// its length, then its bytes.
pub open spec fn mix_rows(state: u64, rows: Seq<Seq<u8>>) -> u64
    decreases rows.len(),
{
    if rows.len() == 0 {
        state
    } else {
        mix_bytes(
            mix(mix_rows(state, rows.drop_last()), rows.last().len() as u64),
            rows.last(),
        )
    }
}

/// The hash of a canonical form: cascades, freecells and foundations are
/// folded in one after the other.
pub open spec fn digest(key: CanonicalKey) -> u64 {
    mix_bytes(mix_rows(mix_rows(HASH_OFFSET, key.columns), key.cells), key.foundations)
}

impl Board {
    /// The cascades as rows of card codes.
    pub open spec fn coded_columns(self) -> Seq<Seq<u8>> {
        self.columns.map_values(|column: Seq<Card>| codes(column))
    }

    /// The freecells as rows of one code each.
    pub open spec fn coded_cells(self) -> Seq<Seq<u8>> {
        self.freecells.map_values(|cell: Option<Card>| cell_row(cell))
    }

    /// The canonical form of the position.
    pub open spec fn canonical_key(self) -> CanonicalKey {
        CanonicalKey {
            columns: self.coded_columns().sort_by(lex_order()),
            cells: self.coded_cells().sort_by(lex_order()),
            foundations: self.foundations,
        }
    }

    /// The hash of the position: the digest of its canonical form.
    pub open spec fn hash(self) -> u64 {
        digest(self.canonical_key())
    }
}

/// Every row comes before itself.
pub proof fn lemma_lex_reflexive(a: Seq<u8>)
    ensures
        lex_le(a, a),
    decreases a.len(),
{
    if a.len() > 0 {
        lemma_lex_reflexive(a.skip(1));
    }
}

/// Two rows that come before each other are the same row.
pub proof fn lemma_lex_antisymmetric(a: Seq<u8>, b: Seq<u8>)
    requires
        lex_le(a, b),
        lex_le(b, a),
    ensures
        a == b,
    decreases a.len(),
{
    if a.len() > 0 {
        lemma_lex_antisymmetric(a.skip(1), b.skip(1));
        assert(a =~= seq![a[0]] + a.skip(1));
        assert(b =~= seq![b[0]] + b.skip(1));
    } else {
        assert(a =~= b);
    }
}

/// The order is transitive.
pub proof fn lemma_lex_transitive(a: Seq<u8>, b: Seq<u8>, c: Seq<u8>)
    requires
        lex_le(a, b),
        lex_le(b, c),
    ensures
        lex_le(a, c),
    decreases a.len(),
{
    if a.len() > 0 && a[0] == b[0] && b[0] == c[0] {
        lemma_lex_transitive(a.skip(1), b.skip(1), c.skip(1));
    }
}

/// Of two rows one comes before the other.
pub proof fn lemma_lex_connected(a: Seq<u8>, b: Seq<u8>)
    ensures
        lex_le(a, b) || lex_le(b, a),
    decreases a.len(),
{
    if a.len() > 0 && b.len() > 0 && a[0] == b[0] {
        lemma_lex_connected(a.skip(1), b.skip(1));
    }
}

/// The lexicographic order is a total order.
pub proof fn lemma_lex_order_total()
    ensures
        total_ordering(lex_order()),
{
    let r = lex_order();
    assert forall|x: Seq<u8>| #[trigger] r(x, x) by {
        lemma_lex_reflexive(x);
    }
    assert forall|x: Seq<u8>, y: Seq<u8>| #[trigger] r(x, y) && #[trigger] r(y, x) implies x
        == y by {
        lemma_lex_antisymmetric(x, y);
    }
    assert forall|x: Seq<u8>, y: Seq<u8>, z: Seq<u8>| #[trigger]
        r(x, y) && #[trigger] r(y, z) implies r(x, z) by {
        lemma_lex_transitive(x, y, z);
    }
    assert forall|x: Seq<u8>, y: Seq<u8>| #[trigger] r(x, y) || #[trigger] r(y, x) by {
        lemma_lex_connected(x, y);
    }
}

/// The rows that a vector of byte vectors holds.
pub open spec fn rows_of(v: Seq<Vec<u8>>) -> Seq<Seq<u8>> {
    Seq::new(v.len(), |i: int| v[i]@)
}

/// Whether row `a` comes before row `b` in lexicographic order.
fn row_le(a: &Vec<u8>, b: &Vec<u8>) -> (le: bool)
    ensures
        le == lex_le(a@, b@),
{
    let mut i: usize = 0;
    assert(a@.skip(0) =~= a@ && b@.skip(0) =~= b@);
    while i < a.len() && i < b.len()
        invariant
            i <= a@.len(),
            i <= b@.len(),
            lex_le(a@, b@) == lex_le(a@.skip(i as int), b@.skip(i as int)),
        decreases a@.len() - i,
    {
        assert(a@.skip(i as int)[0] == a@[i as int] && b@.skip(i as int)[0] == b@[i as int]);
        if a[i] != b[i] {
            return a[i] < b[i];
        }
        assert(a@.skip(i as int).skip(1) =~= a@.skip(i + 1));
        assert(b@.skip(i as int).skip(1) =~= b@.skip(i + 1));
        i = i + 1;
    }
    i == a.len()
}

/// Puts a row into a sorted vector of rows, at its place.
fn insert_row(sorted: &mut Vec<Vec<u8>>, row: Vec<u8>)
    requires
        sorted_by(rows_of(old(sorted)@), lex_order()),
    ensures
        sorted_by(rows_of(final(sorted)@), lex_order()),
        rows_of(final(sorted)@).to_multiset() == rows_of(old(sorted)@).to_multiset().insert(row@),
        final(sorted)@.len() == old(sorted)@.len() + 1,
{
    let ghost before = rows_of(sorted@);
    let mut at: usize = 0;
    let mut searching = true;
    while searching
        invariant
            at <= sorted@.len(),
            rows_of(sorted@) == before,
            forall|t: int| 0 <= t < at ==> lex_le(#[trigger] before[t], row@),
            !searching ==> at == sorted@.len() || !lex_le(before[at as int], row@),
        decreases sorted@.len() - at + if searching { 1int } else { 0int },
    {
        if at < sorted.len() && row_le(&sorted[at], &row) {
            at = at + 1;
        } else {
            searching = false;
        }
    }
    sorted.insert(at, row);
    proof {
        let after = rows_of(sorted@);
        assert(after =~= before.insert(at as int, row@));
        vstd::seq_lib::to_multiset_insert(before, at as int, row@);
        assert forall|i: int, j: int| 0 <= i < j < after.len() implies #[trigger] lex_order()(
            after[i],
            after[j],
        ) by {
            if j < at {
                assert(lex_order()(before[i], before[j]));
            } else if j == at {
                assert(lex_le(before[i], row@));
            } else if i == at {
                assert(!lex_le(before[at as int], row@));
                lemma_lex_connected(before[at as int], row@);
                if j - 1 > at {
                    assert(lex_order()(before[at as int], before[j - 1]));
                    lemma_lex_transitive(row@, before[at as int], before[j - 1]);
                }
            } else if i < at {
                assert(lex_order()(before[i], before[j - 1]));
            } else {
                assert(lex_order()(before[i - 1], before[j - 1]));
            }
        }
    }
}

/// Folds the bytes of a row into a hash state.
fn mix_in_bytes(state: u64, bytes: &Vec<u8>) -> (mixed: u64)
    ensures
        mixed == mix_bytes(state, bytes@),
{
    let mut mixed = state;
    let mut i: usize = 0;
    assert(bytes@.subrange(0, 0) =~= Seq::<u8>::empty());
    while i < bytes.len()
        invariant
            i <= bytes@.len(),
            mixed == mix_bytes(state, bytes@.subrange(0, i as int)),
        decreases bytes@.len() - i,
    {
        assert(bytes@.subrange(0, i + 1).drop_last() =~= bytes@.subrange(0, i as int));
        mixed = (mixed ^ (bytes[i] as u64)).wrapping_mul(HASH_PRIME);
        i = i + 1;
    }
    assert(bytes@.subrange(0, bytes@.len() as int) =~= bytes@);
    mixed
}

/// Folds rows into a hash state.
fn mix_in_rows(state: u64, rows: &Vec<Vec<u8>>) -> (mixed: u64)
    ensures
        mixed == mix_rows(state, rows_of(rows@)),
{
    let ghost all = rows_of(rows@);
    let mut mixed = state;
    let mut i: usize = 0;
    assert(all.subrange(0, 0) =~= Seq::<Seq<u8>>::empty());
    while i < rows.len()
        invariant
            i <= rows@.len(),
            all == rows_of(rows@),
            mixed == mix_rows(state, all.subrange(0, i as int)),
        decreases rows@.len() - i,
    {
        assert(all.subrange(0, i + 1).drop_last() =~= all.subrange(0, i as int));
        assert(all.subrange(0, i + 1).last() == rows@[i as int]@);
        mixed = (mixed ^ (rows[i].len() as u64)).wrapping_mul(HASH_PRIME);
        mixed = mix_in_bytes(mixed, &rows[i]);
        i = i + 1;
    }
    assert(all.subrange(0, rows@.len() as int) =~= all);
    mixed
}

impl Game {
    /// The codes of the cards of cascade `i`.
    fn coded_column(&self, i: usize) -> (row: Vec<u8>)
        requires
            i < 8,
        ensures
            row@ == codes(self@.columns[i as int]),
    {
        let mut row: Vec<u8> = Vec::new();
        let mut t: usize = 0;
        while t < self.columns[i].len()
            invariant
                i < 8,
                t <= self@.columns[i as int].len(),
                row@ == codes(self@.columns[i as int].subrange(0, t as int)),
            decreases self@.columns[i as int].len() - t,
        {
            row.push(self.columns[i][t].encode());
            assert(row@ =~= codes(self@.columns[i as int].subrange(0, t + 1)));
            t = t + 1;
        }
        assert(self@.columns[i as int].subrange(0, t as int) =~= self@.columns[i as int]);
        row
    }

    /// The code of freecell `k` as a row of one byte.
    fn coded_cell(&self, k: usize) -> (row: Vec<u8>)
        requires
            k < 4,
        ensures
            row@ == cell_row(self@.freecells[k as int]),
    {
        let mut row: Vec<u8> = Vec::new();
        match self.freecells[k] {
            Some(card) => row.push(card.encode()),
            None => row.push(0),
        }
        assert(row@ =~= cell_row(self@.freecells[k as int]));
        row
    }

    /// The hash of the position. It does not depend on the order of the
    /// cascades nor on that of the freecells.
    pub fn hash_key(&self) -> (hash: u64)
        ensures
            hash == self@.hash(),
    {
        let ghost coded = self@.coded_columns();
        let mut columns: Vec<Vec<u8>> = Vec::new();
        let mut i: usize = 0;
        assert(coded.subrange(0, 0) =~= Seq::<Seq<u8>>::empty());
        assert(rows_of(columns@) =~= Seq::<Seq<u8>>::empty());
        while i < 8
            invariant
                i <= 8,
                coded == self@.coded_columns(),
                sorted_by(rows_of(columns@), lex_order()),
                rows_of(columns@).to_multiset() == coded.subrange(0, i as int).to_multiset(),
            decreases 8 - i,
        {
            let row = self.coded_column(i);
            assert(coded.subrange(0, i + 1) =~= coded.subrange(0, i as int).push(row@));
            proof {
                vstd::seq_lib::to_multiset_build(coded.subrange(0, i as int), row@);
            }
            insert_row(&mut columns, row);
            i = i + 1;
        }
        let ghost coded_cells = self@.coded_cells();
        let mut cells: Vec<Vec<u8>> = Vec::new();
        let mut k: usize = 0;
        assert(coded_cells.subrange(0, 0) =~= Seq::<Seq<u8>>::empty());
        assert(rows_of(cells@) =~= Seq::<Seq<u8>>::empty());
        while k < 4
            invariant
                k <= 4,
                coded_cells == self@.coded_cells(),
                sorted_by(rows_of(cells@), lex_order()),
                rows_of(cells@).to_multiset() == coded_cells.subrange(0, k as int).to_multiset(),
            decreases 4 - k,
        {
            let row = self.coded_cell(k);
            assert(coded_cells.subrange(0, k + 1) =~= coded_cells.subrange(0, k as int).push(
                row@,
            ));
            proof {
                vstd::seq_lib::to_multiset_build(coded_cells.subrange(0, k as int), row@);
            }
            insert_row(&mut cells, row);
            k = k + 1;
        }
        proof {
            lemma_lex_order_total();
            assert(coded.subrange(0, 8) =~= coded);
            assert(coded_cells.subrange(0, 4) =~= coded_cells);
            coded.lemma_sort_by_ensures(lex_order());
            coded_cells.lemma_sort_by_ensures(lex_order());
            vstd::seq_lib::lemma_sorted_unique(
                rows_of(columns@),
                coded.sort_by(lex_order()),
                lex_order(),
            );
            vstd::seq_lib::lemma_sorted_unique(
                rows_of(cells@),
                coded_cells.sort_by(lex_order()),
                lex_order(),
            );
        }
        let mut hash = mix_in_rows(HASH_OFFSET, &columns);
        hash = mix_in_rows(hash, &cells);
        let mut s: usize = 0;
        assert(self@.foundations.subrange(0, 0) =~= Seq::<u8>::empty());
        while s < 4
            invariant
                s <= 4,
                hash == mix_bytes(
                    mix_rows(mix_rows(HASH_OFFSET, rows_of(columns@)), rows_of(cells@)),
                    self@.foundations.subrange(0, s as int),
                ),
            decreases 4 - s,
        {
            assert(self@.foundations.subrange(0, s + 1).drop_last() =~= self@.foundations.subrange(
                0,
                s as int,
            ));
            hash = (hash ^ (self.foundations[s] as u64)).wrapping_mul(HASH_PRIME);
            s = s + 1;
        }
        assert(self@.foundations.subrange(0, 4) =~= self@.foundations);
        hash
    }
}

impl Board {
    /// Every card on the board has a rank from 1 to 15, so that its code
    /// tells it apart from every other card and from an empty freecell.
    pub open spec fn codable(self) -> bool {
        &&& forall|i: int, j: int|
            0 <= i < self.columns.len() && 0 <= j < self.columns[i].len() ==> 1 <= (
            #[trigger] self.columns[i][j]).rank <= 15
        &&& forall|k: int|
            0 <= k < self.freecells.len() && (#[trigger] self.freecells[k]) is Some ==> 1
                <= self.freecells[k]->0.rank <= 15
    }

    /// The canonical form, and with it the hash, is the same for any order
    /// of the cascades and any order of the freecells: it depends only on
    /// which cascades and which freecell contents there are, and how often,
    /// and on the foundations.
    pub proof fn lemma_hash_ignores_order(self, other: Board)
        requires
            self.columns.to_multiset() == other.columns.to_multiset(),
            self.freecells.to_multiset() == other.freecells.to_multiset(),
            self.foundations == other.foundations,
        ensures
            self.canonical_key() == other.canonical_key(),
            self.hash() == other.hash(),
    {
        lemma_lex_order_total();
        lemma_map_keeps_multiset(
            self.columns,
            other.columns,
            |column: Seq<Card>| codes(column),
        );
        lemma_map_keeps_multiset(
            self.freecells,
            other.freecells,
            |cell: Option<Card>| cell_row(cell),
        );
        self.coded_columns().lemma_sort_by_ensures(lex_order());
        other.coded_columns().lemma_sort_by_ensures(lex_order());
        self.coded_cells().lemma_sort_by_ensures(lex_order());
        other.coded_cells().lemma_sort_by_ensures(lex_order());
        vstd::seq_lib::lemma_sorted_unique(
            self.coded_columns().sort_by(lex_order()),
            other.coded_columns().sort_by(lex_order()),
            lex_order(),
        );
        vstd::seq_lib::lemma_sorted_unique(
            self.coded_cells().sort_by(lex_order()),
            other.coded_cells().sort_by(lex_order()),
            lex_order(),
        );
    }

    /// Exchanging two cascades changes neither the canonical form nor the
    /// hash.
    pub proof fn lemma_hash_ignores_cascade_swap(self, i: int, j: int)
        requires
            0 <= i < self.columns.len(),
            0 <= j < self.columns.len(),
        ensures
            self.with_column(i, self.columns[j]).with_column(j, self.columns[i]).hash()
                == self.hash(),
    {
        lemma_swap_keeps_multiset(self.columns, i, j);
        self.with_column(i, self.columns[j]).with_column(
            j,
            self.columns[i],
        ).lemma_hash_ignores_order(self);
    }

    /// Exchanging two freecells changes neither the canonical form nor the
    /// hash.
    pub proof fn lemma_hash_ignores_cell_swap(self, i: int, j: int)
        requires
            0 <= i < self.freecells.len(),
            0 <= j < self.freecells.len(),
        ensures
            self.with_cell(i, self.freecells[j]).with_cell(j, self.freecells[i]).hash()
                == self.hash(),
    {
        lemma_swap_keeps_multiset(self.freecells, i, j);
        self.with_cell(i, self.freecells[j]).with_cell(j, self.freecells[i]).lemma_hash_ignores_order(
            self,
        );
    }

    /// The canonical form tells positions apart: where the foundations
    /// differ, or the cascades that there are, or the freecell contents that
    /// there are, the canonical forms differ. This is stated of the canonical
    /// form, of which the hash is a 64-bit digest.
    pub proof fn lemma_key_tells_apart(self, other: Board)
        requires
            self.codable(),
            other.codable(),
            self.canonical_key() == other.canonical_key(),
        ensures
            self.foundations == other.foundations,
            self.columns.to_multiset() == other.columns.to_multiset(),
            self.freecells.to_multiset() == other.freecells.to_multiset(),
    {
        lemma_lex_order_total();
        self.coded_columns().lemma_sort_by_ensures(lex_order());
        other.coded_columns().lemma_sort_by_ensures(lex_order());
        self.coded_cells().lemma_sort_by_ensures(lex_order());
        other.coded_cells().lemma_sort_by_ensures(lex_order());
        let code_row = |column: Seq<Card>| codes(column);
        let code_cell = |cell: Option<Card>| cell_row(cell);
        assert forall|i: int, j: int|
            0 <= i < self.columns.len() && 0 <= j < other.columns.len() && code_row(
                self.columns[i],
            ) == code_row(other.columns[j]) implies self.columns[i] == other.columns[j] by {
            let a = self.columns[i];
            let b = other.columns[j];
            assert(codes(a).len() == codes(b).len());
            assert forall|t: int| 0 <= t < a.len() implies a[t] == b[t] by {
                assert(codes(a)[t] == codes(b)[t]);
                assert(1 <= self.columns[i][t].rank <= 15);
                assert(1 <= other.columns[j][t].rank <= 15);
                a[t].lemma_code_injective(b[t]);
            }
            assert(a =~= b);
        }
        lemma_map_reflects_multiset(self.columns, other.columns, code_row);
        assert forall|i: int, j: int|
            0 <= i < self.freecells.len() && 0 <= j < other.freecells.len() && code_cell(
                self.freecells[i],
            ) == code_cell(other.freecells[j]) implies self.freecells[i] == other.freecells[j] by {
            let a = self.freecells[i];
            let b = other.freecells[j];
            assert(cell_row(a)[0] == cell_row(b)[0]);
            if a is Some {
                a->0.lemma_code_value();
            }
            if b is Some {
                b->0.lemma_code_value();
            }
            if a is Some && b is Some {
                a->0.lemma_code_injective(b->0);
            }
        }
        lemma_map_reflects_multiset(self.freecells, other.freecells, code_cell);
    }
}

} // verus!
