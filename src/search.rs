//! The search for words along paths of adjacent grid cells.
use vstd::prelude::*;

use crate::text::string_of;
use crate::tree::{strict_prefix, LetterTree, Status};

verus! {

/// The number of rows of a grid, and of letters in each row.
pub const SIDE: usize = 4;

/// Whether cell `c` (column, row) lies on the grid.
pub open spec fn on_grid(c: (i32, i32)) -> bool {
    0 <= c.0 < SIDE && 0 <= c.1 < SIDE
}

/// Whether cells `a` and `b` are distinct and touch, by an edge or a corner.
pub open spec fn adjacent(a: (i32, i32), b: (i32, i32)) -> bool {
    a != b && -1 <= a.0 - b.0 <= 1 && -1 <= a.1 - b.1 <= 1
}

/// Whether `p` is a path of adjacent grid cells that visits no cell twice.
pub open spec fn is_simple_path(p: Seq<(i32, i32)>) -> bool {
    &&& p.len() > 0
    &&& forall|k: int| 0 <= k < p.len() ==> on_grid(#[trigger] p[k])
    &&& forall|k: int| 0 <= k < p.len() - 1 ==> adjacent(#[trigger] p[k], p[k + 1])
    &&& p.no_duplicates()
}

/// Whether `grid` has `SIDE` rows of `SIDE` letters each.
pub open spec fn grid_ok(grid: Seq<Vec<char>>) -> bool {
    grid.len() == SIDE && forall|y: int| 0 <= y < SIDE ==> (#[trigger] grid[y]).len() == SIDE
}

/// The letter in cell `c` of `grid`.
pub open spec fn letter_at(grid: Seq<Vec<char>>, c: (i32, i32)) -> char {
    grid[c.1 as int]@[c.0 as int]
}

/// The letters read along path `p`.
pub open spec fn spelled(grid: Seq<Vec<char>>, p: Seq<(i32, i32)>) -> Seq<char> {
    Seq::new(p.len(), |k: int| letter_at(grid, p[k]))
}

/// Whether `w` can be read along a simple path of `grid`.
pub open spec fn traceable(grid: Seq<Vec<char>>, w: Seq<char>) -> bool {
    exists|p: Seq<(i32, i32)>| is_simple_path(p) && spelled(grid, p) == w
}

/// Whether `w` is an answer: longer than two letters, one of `words`, and
/// traceable on `grid`.
pub open spec fn findable(words: Set<Seq<char>>, grid: Seq<Vec<char>>, w: Seq<char>) -> bool {
    w.len() > 2 && words.contains(w) && traceable(grid, w)
}

/// The grid cells that touch `pos`.
fn neighbours(pos: (i32, i32)) -> (r: Vec<(i32, i32)>)
    requires
        on_grid(pos),
    ensures
        forall|c: (i32, i32)| r@.contains(c) <==> on_grid(c) && adjacent(pos, c),
{
    let side = SIDE as i32;
    let mut r: Vec<(i32, i32)> = Vec::new();
    let mut xd: i32 = -1;
    while xd <= 1
        invariant
            on_grid(pos),
            side == SIDE,
            -1 <= xd <= 2,
            forall|c: (i32, i32)|
                r@.contains(c) <==> on_grid(c) && adjacent(pos, c) && c.0 - pos.0 < xd,
        decreases 2 - xd,
    {
        let mut yd: i32 = -1;
        while yd <= 1
            invariant
                on_grid(pos),
                side == SIDE,
                -1 <= xd <= 1,
                -1 <= yd <= 2,
                forall|c: (i32, i32)|
                    r@.contains(c) <==> on_grid(c) && adjacent(pos, c) && (c.0 - pos.0 < xd || (
                    c.0 - pos.0 == xd && c.1 - pos.1 < yd)),
            decreases 2 - yd,
        {
            let c = (pos.0 + xd, pos.1 + yd);
            let ghost before = r@;
            let keep = (xd != 0 || yd != 0) && 0 <= c.0 && c.0 < side && 0 <= c.1 && c.1 < side;
            if keep {
                r.push(c);
            }
            proof {
                assert forall|d: (i32, i32)|
                    #[trigger] r@.contains(d) <==> on_grid(d) && adjacent(pos, d) && (d.0 - pos.0 < xd || (
                    d.0 - pos.0 == xd && d.1 - pos.1 < yd + 1)) by {
                    if keep {
                        lemma_push_contains(before, c, d);
                        assert(r@.contains(d) <==> before.contains(d) || d == c);
                    } else {
                        assert(r@ == before);
                    }
                    if d.0 - pos.0 == xd && d.1 - pos.1 == yd {
                        assert(d == c);
                        assert((xd == 0 && yd == 0) ==> c == pos);
                        assert(keep <==> on_grid(c) && adjacent(pos, c));
                        assert(r@.contains(d) <==> keep);
                    } else {
                        assert(d != c);
                        assert(r@.contains(d) <==> before.contains(d));
                    }
                }
            }
            yd += 1;
        }
        xd += 1;
    }
    r
}

/// The number of cells `(x, row)` with `x < col` that `p` does not visit.
spec fn free_in_row(p: Seq<(i32, i32)>, row: int, col: int) -> nat
    decreases col,
{
    if col <= 0 {
        0
    } else {
        free_in_row(p, row, col - 1) + if p.contains(((col - 1) as i32, row as i32)) {
            0nat
        } else {
            1nat
        }
    }
}

/// The number of cells in the rows before `row` that `p` does not visit.
spec fn free_below(p: Seq<(i32, i32)>, row: int) -> nat
    decreases row,
{
    if row <= 0 {
        0
    } else {
        free_below(p, row - 1) + free_in_row(p, row - 1, SIDE as int)
    }
}

/// The number of grid cells that `p` does not visit.
spec fn free_cells(p: Seq<(i32, i32)>) -> nat {
    free_below(p, SIDE as int)
}

proof fn lemma_push_contains(p: Seq<(i32, i32)>, n: (i32, i32), c: (i32, i32))
    ensures
        p.push(n).contains(c) <==> p.contains(c) || c == n,
{
    if p.push(n).contains(c) {
        let k = choose|k: int| 0 <= k < p.push(n).len() && p.push(n)[k] == c;
        if k < p.len() {
            assert(p[k] == c);
        }
    }
    if p.contains(c) {
        let k = choose|k: int| 0 <= k < p.len() && p[k] == c;
        assert(p.push(n)[k] == c);
    }
    if c == n {
        assert(p.push(n)[p.len() as int] == c);
    }
}

proof fn lemma_free_in_row_push(p: Seq<(i32, i32)>, n: (i32, i32), row: int, col: int)
    requires
        on_grid(n),
        !p.contains(n),
        0 <= row < SIDE,
        0 <= col <= SIDE,
    ensures
        free_in_row(p.push(n), row, col) + (if n.1 == row && n.0 < col {
            1nat
        } else {
            0nat
        }) == free_in_row(p, row, col),
    decreases col,
{
    if col > 0 {
        lemma_free_in_row_push(p, n, row, col - 1);
        lemma_push_contains(p, n, ((col - 1) as i32, row as i32));
    }
}

proof fn lemma_free_below_push(p: Seq<(i32, i32)>, n: (i32, i32), row: int)
    requires
        on_grid(n),
        !p.contains(n),
        0 <= row <= SIDE,
    ensures
        free_below(p.push(n), row) + (if n.1 < row {
            1nat
        } else {
            0nat
        }) == free_below(p, row),
    decreases row,
{
    if row > 0 {
        lemma_free_below_push(p, n, row - 1);
        lemma_free_in_row_push(p, n, row - 1, SIDE as int);
    }
}

/// Visiting one more cell leaves one cell fewer unvisited.
proof fn lemma_free_cells_push(p: Seq<(i32, i32)>, n: (i32, i32))
    requires
        on_grid(n),
        !p.contains(n),
    ensures
        free_cells(p.push(n)) < free_cells(p),
{
    lemma_free_below_push(p, n, SIDE as int);
}

/// Whether `path` visits cell `c`.
fn visits(path: &Vec<(i32, i32)>, c: (i32, i32)) -> (r: bool)
    ensures
        r == path@.contains(c),
{
    let mut i: usize = 0;
    while i < path.len()
        invariant
            i <= path.len(),
            forall|k: int| 0 <= k < i ==> path@[k] != c,
        decreases path.len() - i,
    {
        if path[i].0 == c.0 && path[i].1 == c.1 {
            assert(path@[i as int] == c);
            return true;
        }
        i += 1;
    }
    false
}

/// Whether some entry of `found` holds the letters `w`.
pub open spec fn holds(found: Seq<Vec<char>>, w: Seq<char>) -> bool {
    exists|k: int| 0 <= k < found.len() && found[k]@ == w
}

/// No two entries of `found` hold the same letters, and the entries come in
/// order of length.
spec fn ordered_distinct(found: Seq<Vec<char>>) -> bool {
    &&& forall|i: int, j: int| 0 <= i < j < found.len() ==> found[i]@ != found[j]@
    &&& forall|i: int, j: int| 0 <= i < j < found.len() ==> found[i]@.len() <= found[j]@.len()
}

/// Every entry of `found` is an answer for `words` and `grid`.
spec fn all_findable(words: Set<Seq<char>>, grid: Seq<Vec<char>>, found: Seq<Vec<char>>) -> bool {
    forall|k: int| 0 <= k < found.len() ==> findable(words, grid, #[trigger] found[k]@)
}

/// Whether path `q` starts with path `p`.
spec fn extends(q: Seq<(i32, i32)>, p: Seq<(i32, i32)>) -> bool {
    p.len() <= q.len() && q.subrange(0, p.len() as int) == p
}

/// Whether `a` and `b` hold the same letters.
fn same_letters(a: &Vec<char>, b: &Vec<char>) -> (r: bool)
    ensures
        r == (a@ == b@),
{
    if a.len() != b.len() {
        return false;
    }
    let mut i: usize = 0;
    while i < a.len()
        invariant
            a.len() == b.len(),
            i <= a.len(),
            forall|k: int| 0 <= k < i ==> a@[k] == b@[k],
        decreases a.len() - i,
    {
        if a[i] != b[i] {
            return false;
        }
        i += 1;
    }
    assert(a@ =~= b@);
    true
}

/// Adds `w` to `found` unless it is there already, keeping the entries in
/// order of length.
fn add_word(found: &mut Vec<Vec<char>>, w: Vec<char>)
    requires
        ordered_distinct(old(found)@),
    ensures
        ordered_distinct(final(found)@),
        forall|v: Seq<char>| holds(final(found)@, v) <==> holds(old(found)@, v) || v == w@,
{
    let mut k: usize = 0;
    while k < found.len()
        invariant
            found@ == old(found)@,
            ordered_distinct(found@),
            k <= found.len(),
            forall|i: int| 0 <= i < k ==> found@[i]@ != w@,
        decreases found.len() - k,
    {
        if same_letters(&found[k], &w) {
            assert(found@[k as int]@ == w@);
            return;
        }
        k += 1;
    }
    let mut pos: usize = 0;
    while pos < found.len() && found[pos].len() <= w.len()
        invariant
            found@ == old(found)@,
            ordered_distinct(found@),
            forall|i: int| 0 <= i < found.len() ==> found@[i]@ != w@,
            pos <= found.len(),
            forall|i: int| 0 <= i < pos ==> found@[i]@.len() <= w@.len(),
        decreases found.len() - pos,
    {
        pos += 1;
    }
    let ghost f0 = found@;
    let ghost wv = w@;
    found.insert(pos, w);
    proof {
        let f1 = found@;
        f0.insert_ensures(pos as int, f1[pos as int]);
        assert forall|i: int| 0 <= i < f1.len() implies #[trigger] f1[i] == (if i < pos {
            f0[i]
        } else if i == pos {
            f1[pos as int]
        } else {
            f0[i - 1]
        }) by {
            if i > pos {
                assert(f1[(i - 1) + 1] == f0[i - 1]);
            }
        }
        assert(f1[pos as int]@ == wv);
        assert forall|i: int| pos <= i < f0.len() implies f0[i]@.len() > wv.len() by {
            assert(f0[pos as int]@.len() > wv.len());
        }
        assert forall|v: Seq<char>| holds(f1, v) <==> holds(f0, v) || v == wv by {
            if holds(f1, v) {
                let i = choose|i: int| 0 <= i < f1.len() && f1[i]@ == v;
                if i < pos {
                    assert(f0[i]@ == v);
                } else if i > pos {
                    assert(f0[i - 1]@ == v);
                }
            }
            if holds(f0, v) {
                let i = choose|i: int| 0 <= i < f0.len() && f0[i]@ == v;
                if i < pos {
                    assert(f1[i]@ == v);
                } else {
                    assert(f1[i + 1]@ == v);
                }
            }
            if v == wv {
                assert(f1[pos as int]@ == v);
            }
        }
    }
}

/// The letters along a path start with the letters along each of its starts.
proof fn lemma_spelled_start(grid: Seq<Vec<char>>, q: Seq<(i32, i32)>, p: Seq<(i32, i32)>)
    requires
        extends(q, p),
    ensures
        spelled(grid, q).subrange(0, p.len() as int) == spelled(grid, p),
{
    assert forall|k: int| 0 <= k < p.len() implies q[k] == p[k] by {
        assert(q.subrange(0, p.len() as int)[k] == q[k]);
    }
    assert(spelled(grid, q).subrange(0, p.len() as int) =~= spelled(grid, p));
}

/// Records every answer read along a simple path that starts with `path`,
/// and leaves `path` and `word` as they were.
fn explore(
    tree: &LetterTree,
    grid: &Vec<Vec<char>>,
    path: &mut Vec<(i32, i32)>,
    word: &mut Vec<char>,
    found: &mut Vec<Vec<char>>,
)
    requires
        tree.wf(),
        grid_ok(grid@),
        is_simple_path(old(path)@),
        old(word)@ == spelled(grid@, old(path)@),
        ordered_distinct(old(found)@),
        all_findable(tree@, grid@, old(found)@),
    ensures
        final(path)@ == old(path)@,
        final(word)@ == old(word)@,
        ordered_distinct(final(found)@),
        all_findable(tree@, grid@, final(found)@),
        forall|w: Seq<char>| holds(old(found)@, w) ==> holds(final(found)@, w),
        forall|q: Seq<(i32, i32)>|
            is_simple_path(q) && extends(q, old(path)@) && findable(tree@, grid@, spelled(grid@, q))
                ==> holds(final(found)@, #[trigger] spelled(grid@, q)),
    decreases free_cells(old(path)@),
{
    let ghost p0 = path@;
    let ghost w0 = word@;
    let ghost f0 = found@;
    let status = tree.status_of(word);
    if status == Status::Impossible {
        proof {
            assert forall|q: Seq<(i32, i32)>|
                is_simple_path(q) && extends(q, p0) && findable(tree@, grid@, spelled(grid@, q))
                    implies holds(found@, #[trigger] spelled(grid@, q)) by {
                let sq = spelled(grid@, q);
                lemma_spelled_start(grid@, q, p0);
                if sq.len() == w0.len() {
                    assert(sq =~= w0);
                } else {
                    assert(strict_prefix(w0, sq));
                }
            }
        }
        return;
    }
    if status == Status::Word && word.len() > 2 {
        let copy = word.clone();
        assert(copy@ =~= w0);
        add_word(found, copy);
        proof {
            assert(findable(tree@, grid@, w0));
            assert forall|k: int| 0 <= k < found@.len() implies findable(tree@, grid@, #[trigger] found@[k]@) by {
                assert(holds(found@, found@[k]@));
                if found@[k]@ != w0 {
                    let i = choose|i: int| 0 <= i < f0.len() && f0[i]@ == found@[k]@;
                    assert(findable(tree@, grid@, f0[i]@));
                }
            }
        }
    }
    let ghost f1 = found@;
    let pos = path[path.len() - 1];
    let ns = neighbours(pos);
    let mut k: usize = 0;
    while k < ns.len()
        invariant
            tree.wf(),
            grid_ok(grid@),
            is_simple_path(p0),
            w0 == spelled(grid@, p0),
            path@ == p0,
            p0 == old(path)@,
            word@ == w0,
            pos == p0.last(),
            forall|c: (i32, i32)| ns@.contains(c) <==> on_grid(c) && adjacent(pos, c),
            k <= ns.len(),
            ordered_distinct(found@),
            all_findable(tree@, grid@, found@),
            forall|w: Seq<char>| holds(f0, w) ==> holds(found@, w),
            findable(tree@, grid@, w0) ==> holds(found@, w0),
            forall|q: Seq<(i32, i32)>|
                is_simple_path(q) && extends(q, p0) && p0.len() < q.len() && ns@.subrange(
                    0,
                    k as int,
                ).contains(q[p0.len() as int]) && findable(tree@, grid@, spelled(grid@, q))
                    ==> holds(found@, #[trigger] spelled(grid@, q)),
        decreases ns.len() - k,
    {
        let n = ns[k];
        let ghost fk = found@;
        assert(ns@.contains(n));
        assert(on_grid(n));
        assert(grid@[n.1 as int].len() == SIDE);
        if !visits(path, n) {
            path.push(n);
            word.push(grid[n.1 as usize][n.0 as usize]);
            proof {
                let p1 = p0.push(n);
                lemma_free_cells_push(p0, n);
                assert(is_simple_path(p1)) by {
                    assert forall|i: int, j: int| 0 <= i < j < p1.len() implies p1[i] != p1[j] by {
                        if j == p0.len() {
                            assert(p0.contains(p0[i]));
                        }
                    }
                }
                assert(word@ =~= spelled(grid@, p1));
                assert(path@ == p1);
                assert(free_cells(path@) < free_cells(old(path)@));
            }
            explore(tree, grid, path, word, found);
            path.pop();
            word.pop();
            proof {
                assert(path@ =~= p0);
                assert(word@ =~= w0);
            }
        }
        proof {
            assert forall|q: Seq<(i32, i32)>|
                is_simple_path(q) && extends(q, p0) && p0.len() < q.len() && ns@.subrange(
                    0,
                    k + 1,
                ).contains(q[p0.len() as int]) && findable(tree@, grid@, spelled(grid@, q))
                    implies holds(found@, #[trigger] spelled(grid@, q)) by {
                let m = q[p0.len() as int];
                let i = choose|i: int| 0 <= i < k + 1 && #[trigger] ns@.subrange(0, k + 1)[i] == m;
                if i < k {
                    assert(ns@.subrange(0, k as int)[i] == m);
                    assert(holds(fk, spelled(grid@, q)));
                } else {
                    assert(m == n);
                    if p0.contains(n) {
                        let j = choose|j: int| 0 <= j < p0.len() && p0[j] == n;
                        assert(q[j] == p0[j]) by {
                            assert(q.subrange(0, p0.len() as int)[j] == q[j]);
                        }
                    } else {
                        assert(extends(q, p0.push(n))) by {
                            assert(q.subrange(0, p0.len() + 1 as int) =~= p0.push(n)) by {
                                assert forall|t: int| 0 <= t < p0.len() implies q[t] == p0[t] by {
                                    assert(q.subrange(0, p0.len() as int)[t] == q[t]);
                                }
                            }
                        }
                    }
                }
            }
        }
        k += 1;
    }
    proof {
        assert forall|q: Seq<(i32, i32)>|
            is_simple_path(q) && extends(q, p0) && findable(tree@, grid@, spelled(grid@, q))
                implies holds(found@, #[trigger] spelled(grid@, q)) by {
            if q.len() == p0.len() {
                assert(q =~= p0);
            } else {
                let m = q[p0.len() as int];
                assert(q[p0.len() - 1] == p0.last()) by {
                    assert(q.subrange(0, p0.len() as int)[p0.len() - 1] == q[p0.len() - 1]);
                }
                assert(adjacent(q[p0.len() - 1], q[p0.len() - 1 + 1]));
                assert(ns@.contains(m));
                assert(ns@.subrange(0, ns.len() as int) =~= ns@);
            }
        }
    }
}

/// Whether `grid` has `SIDE` rows of `SIDE` letters each, the only shape
/// [`solve`] accepts.
pub fn is_valid_grid(grid: &Vec<Vec<char>>) -> (r: bool)
    ensures
        r == grid_ok(grid@),
{
    if grid.len() != SIDE {
        return false;
    }
    let mut y: usize = 0;
    while y < SIDE
        invariant
            grid.len() == SIDE,
            y <= SIDE,
            forall|k: int| 0 <= k < y ==> (#[trigger] grid@[k]).len() == SIDE,
        decreases SIDE - y,
    {
        if grid[y].len() != SIDE {
            return false;
        }
        y += 1;
    }
    true
}

/// All words of `tree` longer than two letters that can be read along a
/// path of adjacent cells of `grid` that visits no cell twice, each once, in
/// order of length.
///
/// Every path is followed from every cell for as long as its letters are a
/// word or the start of one.
pub fn solve(tree: &LetterTree, grid: Vec<Vec<char>>) -> (r: Vec<String>)
    requires
        tree.wf(),
        grid_ok(grid@),
    ensures
        forall|k: int| 0 <= k < r.len() ==> findable(tree@, grid@, #[trigger] r[k]@),
        forall|w: Seq<char>|
            findable(tree@, grid@, w) ==> exists|k: int| 0 <= k < r.len() && #[trigger] r[k]@ == w,
        forall|i: int, j: int| 0 <= i < j < r.len() ==> r[i]@ != r[j]@,
        forall|i: int, j: int| 0 <= i < j < r.len() ==> r[i]@.len() <= r[j]@.len(),
{
    let mut found: Vec<Vec<char>> = Vec::new();
    let side = SIDE as i32;
    let mut x: i32 = 0;
    while x < side
        invariant
            side == SIDE,
            0 <= x <= side,
            tree.wf(),
            grid_ok(grid@),
            ordered_distinct(found@),
            all_findable(tree@, grid@, found@),
            forall|q: Seq<(i32, i32)>|
                is_simple_path(q) && q[0].0 < x && findable(tree@, grid@, spelled(grid@, q))
                    ==> holds(found@, #[trigger] spelled(grid@, q)),
        decreases side - x,
    {
        let mut y: i32 = 0;
        while y < side
            invariant
                side == SIDE,
                0 <= x < side,
                0 <= y <= side,
                tree.wf(),
                grid_ok(grid@),
                ordered_distinct(found@),
                all_findable(tree@, grid@, found@),
                forall|q: Seq<(i32, i32)>|
                    is_simple_path(q) && (q[0].0 < x || (q[0].0 == x && q[0].1 < y)) && findable(
                        tree@,
                        grid@,
                        spelled(grid@, q),
                    ) ==> holds(found@, #[trigger] spelled(grid@, q)),
            decreases side - y,
        {
            let start = (x, y);
            assert(grid@[y as int].len() == SIDE);
            let mut path: Vec<(i32, i32)> = Vec::new();
            path.push(start);
            let mut word: Vec<char> = Vec::new();
            word.push(grid[y as usize][x as usize]);
            let ghost f0 = found@;
            assert(word@ =~= spelled(grid@, path@));
            explore(tree, &grid, &mut path, &mut word, &mut found);
            proof {
                assert forall|q: Seq<(i32, i32)>|
                    is_simple_path(q) && (q[0].0 < x || (q[0].0 == x && q[0].1 < y + 1)) && findable(
                        tree@,
                        grid@,
                        spelled(grid@, q),
                    ) implies holds(found@, #[trigger] spelled(grid@, q)) by {
                    if q[0].0 == x && q[0].1 == y {
                        assert(q.subrange(0, 1) =~= seq![start]);
                        assert(extends(q, seq![start]));
                    } else {
                        assert(holds(f0, spelled(grid@, q)));
                    }
                }
            }
            y += 1;
        }
        x += 1;
    }
    let mut r: Vec<String> = Vec::new();
    let mut k: usize = 0;
    while k < found.len()
        invariant
            k <= found.len(),
            r.len() == k,
            forall|i: int| 0 <= i < k ==> (#[trigger] r@[i])@ == found@[i]@,
        decreases found.len() - k,
    {
        r.push(string_of(&found[k]));
        k += 1;
    }
    proof {
        assert forall|w: Seq<char>| findable(tree@, grid@, w) implies exists|k: int|
            0 <= k < r.len() && #[trigger] r[k]@ == w by {
            let q = choose|q: Seq<(i32, i32)>| is_simple_path(q) && spelled(grid@, q) == w;
            assert(on_grid(q[0]));
            assert(holds(found@, spelled(grid@, q)));
            let i = choose|i: int| 0 <= i < found@.len() && found@[i]@ == w;
            assert(r[i]@ == w);
        }
    }
    r
}

} // verus!
