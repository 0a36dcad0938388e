//! One generation step of the Game of Life: neighbor counting and the
//! birth, survival and death rules.

use std::collections::HashMap;
use vstd::prelude::*;

verus! {

broadcast use {
    vstd::std_specs::hash::group_hash_axioms,
    vstd::seq_lib::lemma_seq_contains_after_push,
};

/// A cell of the grid, as `(x, y)`.
pub type Cell = (i32, i32);

/// `v + d`, wrapped around into the range of `i32`.
pub open spec fn wrap_add(v: i32, d: int) -> i32 {
    if v + d > i32::MAX {
        (v + d - 0x1_0000_0000) as i32
    } else if v + d < i32::MIN {
        (v + d + 0x1_0000_0000) as i32
    } else {
        (v + d) as i32
    }
}

/// The eight offsets of the neighbors, row by row: up-left, up, up-right,
/// left, right, down-left, down, down-right.
pub open spec fn offsets() -> Seq<(int, int)> {
    seq![(-1, -1), (-1, 0), (-1, 1), (0, -1), (0, 1), (1, -1), (1, 0), (1, 1)]
}

/// The neighbors of `c`, in the order of `offsets()`, each coordinate
/// wrapping around at the ends of the `i32` range.
pub open spec fn neighbors(c: Cell) -> Seq<Cell> {
    offsets().map_values(|o: (int, int)| (wrap_add(c.0, o.0), wrap_add(c.1, o.1)))
}

proof fn lemma_wrap_add_injective(v: i32, a: int, b: int)
    requires
        -1 <= a <= 1,
        -1 <= b <= 1,
        wrap_add(v, a) == wrap_add(v, b),
    ensures
        a == b,
{
}

/// The neighbors of any cell are eight distinct cells, none of them the cell
/// itself.
pub proof fn lemma_neighbors_distinct(c: Cell)
    ensures
        neighbors(c).len() == 8,
        neighbors(c).no_duplicates(),
        !neighbors(c).contains(c),
{
    let nb = neighbors(c);
    let o = offsets();
    assert forall|i: int, j: int| 0 <= i < 8 && 0 <= j < 8 && i != j implies nb[i] != nb[j] by {
        if nb[i] == nb[j] {
            lemma_wrap_add_injective(c.0, o[i].0, o[j].0);
            lemma_wrap_add_injective(c.1, o[i].1, o[j].1);
        }
    }
    assert forall|i: int| 0 <= i < 8 implies nb[i] != c by {
        if nb[i] == c {
            lemma_wrap_add_injective(c.0, o[i].0, 0);
            lemma_wrap_add_injective(c.1, o[i].1, 0);
        }
    }
}

/// Returns the eight neighbors of `(x, y)` in the fixed order of
/// `offsets()`. Coordinates wrap around at the ends of the `i32` range, so
/// the call never overflows and the eight cells stay distinct.
pub fn get_nbors(x: i32, y: i32) -> (r: Vec<Cell>)
    ensures
        r@ == neighbors((x, y)),
        r@.len() == 8,
        r@.no_duplicates(),
        !r@.contains((x, y)),
{
    let directions: [(i32, i32); 8] = [
        (-1, -1),
        (-1, 0),
        (-1, 1),
        (0, -1),
        (0, 1),
        (1, -1),
        (1, 0),
        (1, 1),
    ];
    assert(directions@ == seq![
        (-1i32, -1i32),
        (-1i32, 0i32),
        (-1i32, 1i32),
        (0i32, -1i32),
        (0i32, 1i32),
        (1i32, -1i32),
        (1i32, 0i32),
        (1i32, 1i32),
    ]);
    let mut nbors: Vec<Cell> = Vec::with_capacity(8);
    let mut i: usize = 0;
    while i < 8
        invariant
            0 <= i <= 8,
            directions@.len() == 8,
            forall|k: int|
                0 <= k < 8 ==> directions@[k].0 == offsets()[k].0 && directions@[k].1
                    == offsets()[k].1,
            nbors@.len() == i,
            forall|k: int| 0 <= k < i ==> nbors@[k] == neighbors((x, y))[k],
        decreases 8 - i,
    {
        let (dx, dy) = directions[i];
        nbors.push((x.wrapping_add(dx), y.wrapping_add(dy)));
        i = i + 1;
    }
    assert(nbors@ =~= neighbors((x, y)));
    proof {
        lemma_neighbors_distinct((x, y));
    }
    nbors
}

/// How many entries of `alive` have `n` among their neighbors: the count
/// that one pass over `alive`, adding one for each neighbor, leaves at `n`.
pub open spec fn live_count(alive: Seq<Cell>, n: Cell) -> nat
    decreases alive.len(),
{
    if alive.len() == 0 {
        0
    } else {
        live_count(alive.drop_last(), n) + if neighbors(alive.last()).contains(n) {
            1nat
        } else {
            0nat
        }
    }
}

/// `n` is alive in the generation after `alive`: three live neighbors, or
/// two live neighbors and alive already.
pub open spec fn lives_next(alive: Seq<Cell>, n: Cell) -> bool {
    live_count(alive, n) == 3 || (live_count(alive, n) == 2 && alive.contains(n))
}

/// The cells alive in the generation after `alive`.
pub open spec fn next_generation(alive: Seq<Cell>) -> Set<Cell> {
    Set::new(|n: Cell| lives_next(alive, n))
}

proof fn lemma_live_count_bound(alive: Seq<Cell>, n: Cell)
    ensures
        live_count(alive, n) <= alive.len(),
    decreases alive.len(),
{
    if alive.len() > 0 {
        lemma_live_count_bound(alive.drop_last(), n);
    }
}

/// A single live cell, whatever its place, leaves no live cell behind.
pub proof fn lemma_lone_cell_dies(c: Cell)
    ensures
        next_generation(seq![c]) == Set::<Cell>::empty(),
{
    assert forall|n: Cell| !lives_next(seq![c], n) by {
        lemma_live_count_bound(seq![c], n);
    }
    assert(next_generation(seq![c]) =~= Set::<Cell>::empty());
}

/// No live cell leaves no live cell.
pub proof fn lemma_empty_stays_empty()
    ensures
        next_generation(Seq::<Cell>::empty()) == Set::<Cell>::empty(),
{
    assert(next_generation(Seq::<Cell>::empty()) =~= Set::<Cell>::empty());
}

/// The key of a cell in the count table: `x` and `y`, shifted to be
/// non-negative, as the high and low halves of a `u64`.
pub open spec fn key_of(c: Cell) -> u64 {
    ((c.0 + 0x8000_0000) * 0x1_0000_0000 + (c.1 + 0x8000_0000)) as u64
}

proof fn lemma_key_of_injective(a: Cell, b: Cell)
    requires
        key_of(a) == key_of(b),
    ensures
        a == b,
{
    let ha: int = a.0 + 0x8000_0000;
    let hb: int = b.0 + 0x8000_0000;
    let la: int = a.1 + 0x8000_0000;
    let lb: int = b.1 + 0x8000_0000;
    let k: int = 0x1_0000_0000;
    assert(0 <= ha * k + la <= u64::MAX) by (nonlinear_arith)
        requires 0 <= ha < k, 0 <= la < k, k == 0x1_0000_0000;
    assert(0 <= hb * k + lb <= u64::MAX) by (nonlinear_arith)
        requires 0 <= hb < k, 0 <= lb < k, k == 0x1_0000_0000;
    assert(ha == hb) by (nonlinear_arith)
        requires ha * k + la == hb * k + lb, 0 <= la < k, 0 <= lb < k, k > 0;
}

fn cell_key(c: Cell) -> (k: u64)
    ensures
        k == key_of(c),
{
    let hi: u64 = (c.0 as i64 + 0x8000_0000) as u64;
    let lo: u64 = (c.1 as i64 + 0x8000_0000) as u64;
    assert(hi * 0x1_0000_0000 <= 0xffff_ffff_0000_0000) by (nonlinear_arith)
        requires hi <= 0xffff_ffff;
    hi * 0x1_0000_0000 + lo
}

fn contains_cell(cells: &Vec<Cell>, c: Cell) -> (r: bool)
    ensures
        r == cells@.contains(c),
{
    let mut i: usize = 0;
    while i < cells.len()
        invariant
            0 <= i <= cells@.len(),
            forall|k: int| 0 <= k < i ==> cells@[k] != c,
        decreases cells@.len() - i,
    {
        let d = cells[i];
        if d.0 == c.0 && d.1 == c.1 {
            return true;
        }
        i = i + 1;
    }
    false
}

/// Computes the next generation from the live cells `curr_alive`.
///
/// Every neighbor of every entry of `curr_alive` gets one count per such
/// entry beside it. A counted cell lives on if its count is three, or two and it is alive
/// now; a cell with no count cannot live. The input is left as it is and the
/// result lists each live cell once, with no boundary applied.
pub fn compute_next(curr_alive: &Vec<Cell>) -> (next: Vec<Cell>)
    ensures
        next@.no_duplicates(),
        next@.to_set() == next_generation(curr_alive@),
{
    let mut neighbor_count: HashMap<u64, usize> = HashMap::new();
    // The counted cells, each once, in the order they were first met.
    let mut counted: Vec<Cell> = Vec::new();
    let len: usize = curr_alive.len();
    let mut i: usize = 0;
    while i < len
        invariant
            len == curr_alive@.len(),
            0 <= i <= curr_alive@.len(),
            counted@.no_duplicates(),
            forall|n: Cell|
                #[trigger] neighbor_count@.contains_key(key_of(n)) <==> counted@.contains(n),
            forall|n: Cell|
                #[trigger] counted@.contains(n) ==> neighbor_count@[key_of(n)] == live_count(
                    curr_alive@.take(i as int),
                    n,
                ),
            forall|n: Cell|
                !counted@.contains(n) ==> #[trigger] live_count(curr_alive@.take(i as int), n)
                    == 0,
        decreases curr_alive@.len() - i,
    {
        let c = curr_alive[i];
        let nbors = get_nbors(c.0, c.1);
        proof {
            lemma_neighbors_distinct(c);
        }
        let ghost before = curr_alive@.take(i as int);
        let mut j: usize = 0;
        while j < 8
            invariant
                len == curr_alive@.len(),
                0 <= i < curr_alive@.len(),
                before == curr_alive@.take(i as int),
                c == curr_alive@[i as int],
                0 <= j <= 8,
                nbors@ == neighbors(c),
                nbors@.no_duplicates(),
                nbors@.len() == 8,
                counted@.no_duplicates(),
                forall|n: Cell|
                    #[trigger] neighbor_count@.contains_key(key_of(n)) <==> counted@.contains(n),
                forall|n: Cell|
                    #[trigger] counted@.contains(n) ==> neighbor_count@[key_of(n)] == live_count(
                        before,
                        n,
                    ) + if nbors@.take(j as int).contains(n) {
                        1nat
                    } else {
                        0nat
                    },
                forall|n: Cell| !counted@.contains(n) ==> #[trigger] live_count(before, n) == 0,
                forall|n: Cell|
                    #[trigger] nbors@.take(j as int).contains(n) ==> counted@.contains(n),
            decreases 8 - j,
        {
            let n = nbors[j];
            let key = cell_key(n);
            proof {
                lemma_live_count_bound(before, n);
                assert(nbors@.take(j as int + 1) =~= nbors@.take(j as int).push(n));
                assert forall|m: Cell| key_of(m) == key implies m == n by {
                    lemma_key_of_injective(m, n);
                }
            }
            match neighbor_count.get(&key) {
                Some(count) => {
                    // `n` is counted already, and not yet for the cell `c`.
                    assert(*count == live_count(before, n));
                    let bumped: usize = *count + 1;
                    neighbor_count.insert(key, bumped);
                },
                None => {
                    neighbor_count.insert(key, 1);
                    counted.push(n);
                },
            }
            j = j + 1;
        }
        proof {
            assert(nbors@.take(8) =~= nbors@);
            let after = curr_alive@.take(i as int + 1);
            assert(after.drop_last() =~= before);
            assert(after.last() == c);
            assert forall|m: Cell| #[trigger]
                live_count(after, m) == live_count(before, m) + if nbors@.contains(m) {
                    1nat
                } else {
                    0nat
                } by {}
        }
        i = i + 1;
    }
    proof {
        assert(curr_alive@.take(curr_alive@.len() as int) =~= curr_alive@);
    }

    let mut next: Vec<Cell> = Vec::new();
    let mut k: usize = 0;
    while k < counted.len()
        invariant
            0 <= k <= counted@.len(),
            counted@.no_duplicates(),
            forall|n: Cell|
                #[trigger] neighbor_count@.contains_key(key_of(n)) <==> counted@.contains(n),
            forall|n: Cell|
                #[trigger] counted@.contains(n) ==> neighbor_count@[key_of(n)] == live_count(
                    curr_alive@,
                    n,
                ),
            next@.no_duplicates(),
            forall|n: Cell|
                #[trigger] next@.contains(n) <==> counted@.take(k as int).contains(n) && lives_next(
                    curr_alive@,
                    n,
                ),
        decreases counted@.len() - k,
    {
        let cell = counted[k];
        let key = cell_key(cell);
        let count: usize = match neighbor_count.get(&key) {
            Some(count) => *count,
            None => 0,
        };
        proof {
            assert(counted@.contains(cell));
            assert(!counted@.take(k as int).contains(cell));
            assert(counted@.take(k as int + 1) =~= counted@.take(k as int).push(cell));
        }
        let ghost next_before = next@;
        if count == 3 || (count == 2 && contains_cell(curr_alive, cell)) {
            next.push(cell);
            assert forall|a: int, b: int| 0 <= a < b < next@.len() implies next@[a] != next@[b] by {
                if b == next_before.len() {
                    assert(next_before.contains(next@[a]));
                }
            }
        }
        k = k + 1;
    }
    proof {
        assert(counted@.take(counted@.len() as int) =~= counted@);
        assert(next@.to_set() =~= next_generation(curr_alive@));
    }
    next
}

} // verus!
