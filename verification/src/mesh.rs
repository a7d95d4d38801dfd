//! Index buffers for a square grid of terrain vertices, numbered row by row
//! (`row * size + col`).
use vstd::prelude::*;

verus! {

/// The index of the vertex at `row`, `col` in a grid of width `n`.
pub open spec fn vertex(n: int, row: int, col: int) -> u32 {
    (row * n + col) as u32
}

/// The zigzag between row `row` and the next one over the first `cols`
/// columns: each column's vertex in the row, then the one below it.
pub open spec fn zigzag(n: int, row: int, cols: int) -> Seq<u32>
    decreases cols,
{
    if cols <= 0 {
        Seq::empty()
    } else {
        zigzag(n, row, cols - 1) + seq![vertex(n, row, cols - 1), vertex(n, row + 1, cols - 1)]
    }
}

/// The strip part for row `row`: the zigzag to the next row, joined to the
/// parts of the neighbouring rows by repeating a vertex (degenerate
/// triangles).
pub open spec fn strip_row(n: int, row: int) -> Seq<u32> {
    (if row > 0 {
        seq![vertex(n, row, 0)]
    } else {
        Seq::empty()
    }) + zigzag(n, row, n) + (if row < n - 2 {
        seq![vertex(n, row + 1, n - 1)]
    } else {
        Seq::empty()
    })
}

/// The strip over the first `rows` rows.
pub open spec fn strip_rows(n: int, rows: int) -> Seq<u32>
    decreases rows,
{
    if rows <= 0 {
        Seq::empty()
    } else {
        strip_rows(n, rows - 1) + strip_row(n, rows - 1)
    }
}

/// The two triangles of the grid cell at `row`, `col`: top left, bottom left,
/// top right; then top right, bottom left, bottom right.
pub open spec fn cell_triangles(n: int, row: int, col: int) -> Seq<u32> {
    seq![
        vertex(n, row, col),
        vertex(n, row + 1, col),
        vertex(n, row, col + 1),
        vertex(n, row, col + 1),
        vertex(n, row + 1, col),
        vertex(n, row + 1, col + 1),
    ]
}

/// The triangles of the first `cols` cells of row `row`.
pub open spec fn list_row(n: int, row: int, cols: int) -> Seq<u32>
    decreases cols,
{
    if cols <= 0 {
        Seq::empty()
    } else {
        list_row(n, row, cols - 1) + cell_triangles(n, row, cols - 1)
    }
}

/// The triangles of the first `rows` rows of cells.
pub open spec fn list_rows(n: int, rows: int) -> Seq<u32>
    decreases rows,
{
    if rows <= 0 {
        Seq::empty()
    } else {
        list_rows(n, rows - 1) + list_row(n, rows - 1, n - 1)
    }
}

/// Bounds on vertex indices inside a grid of width `n`.
proof fn lemma_vertex_bound(n: int, row: int, col: int)
    requires
        0 <= row < n,
        0 <= col < n,
    ensures
        0 <= row * n + col < n * n,
        row * n + col <= row * n + n - 1,
        (row + 1) * n == row * n + n,
{
    assert(row * n + col < n * n) by (nonlinear_arith)
        requires
            0 <= row < n,
            0 <= col < n,
    ;
    assert(0 <= row * n) by (nonlinear_arith)
        requires
            0 <= row,
            0 <= n,
    ;
    assert((row + 1) * n == row * n + n) by (nonlinear_arith);
}

/// The triangle strip of a square grid of `size` by `size` vertices: row by
/// row, zigzagging between each row and the next, with degenerate triangles
/// joining the rows.
pub fn gen_strip(size: usize) -> (strip: Vec<u32>)
    requires
        1 <= size,
        size * size <= 0x1_0000_0000,
    ensures
        strip@ == strip_rows(size as int, size - 1),
{
    let ghost n = size as int;
    assert(size <= 0x10000) by (nonlinear_arith)
        requires
            1 <= size,
            size * size <= 0x1_0000_0000,
    {
        if size > 0x10000 {
            assert(size * size > 0x10000 * 0x10000);
        }
    }
    let size = size as u32;
    let mut strip: Vec<u32> = Vec::new();
    let mut row: u32 = 0;
    while row < size - 1
        invariant
            n == size,
            1 <= n,
            n * n <= 0x1_0000_0000,
            row <= n - 1,
            strip@ == strip_rows(n, row as int),
        decreases n - 1 - row,
    {
        proof {
            lemma_vertex_bound(n, row as int, 0);
            lemma_vertex_bound(n, row + 1, n - 1);
        }
        let ghost before = strip@;
        if row > 0 {
            strip.push(row * size);
        }
        let ghost head = strip@;
        let mut col: u32 = 0;
        while col < size
            invariant
                n == size,
                1 <= n,
                n * n <= 0x1_0000_0000,
                row < n - 1,
                col <= n,
                strip@ == head + zigzag(n, row as int, col as int),
            decreases n - col,
        {
            proof {
                lemma_vertex_bound(n, row as int, col as int);
                lemma_vertex_bound(n, row + 1, col as int);
            }
            strip.push(row * size + col);
            strip.push(((row + 1) * size) + col);
            proof {
                assert(strip@ =~= head + zigzag(n, row as int, col + 1));
            }
            col = col + 1;
        }
        if row < size - 2 {
            strip.push((row + 1) * size + (size - 1));
        }
        proof {
            assert(strip@ =~= before + strip_row(n, row as int));
        }
        row = row + 1;
    }
    strip
}

/// The triangle list of a square grid of `size` by `size` vertices: two
/// triangles per cell, cell by cell, row by row; 2(n-1)^2 triangles, 6(n-1)^2
/// indices.
pub fn gen_list(size: usize) -> (list: Vec<u32>)
    requires
        1 <= size,
        size * size <= 0x1_0000_0000,
    ensures
        list@ == list_rows(size as int, size - 1),
{
    let ghost n = size as int;
    assert(size <= 0x10000) by (nonlinear_arith)
        requires
            1 <= size,
            size * size <= 0x1_0000_0000,
    {
        if size > 0x10000 {
            assert(size * size > 0x10000 * 0x10000);
        }
    }
    let size = size as u32;
    let mut list: Vec<u32> = Vec::new();
    let mut row: u32 = 0;
    while row < size - 1
        invariant
            n == size,
            1 <= n,
            n * n <= 0x1_0000_0000,
            row <= n - 1,
            list@ == list_rows(n, row as int),
        decreases n - 1 - row,
    {
        let ghost head = list@;
        let mut col: u32 = 0;
        while col < size - 1
            invariant
                n == size,
                1 <= n,
                n * n <= 0x1_0000_0000,
                row < n - 1,
                col <= n - 1,
                list@ == head + list_row(n, row as int, col as int),
            decreases n - 1 - col,
        {
            proof {
                lemma_vertex_bound(n, row as int, col as int);
                lemma_vertex_bound(n, row + 1, col + 1);
                lemma_vertex_bound(n, row as int, col + 1);
            }
            let top_left = row * size + col;
            let top_right = row * size + col + 1;
            let bottom_left = (row + 1) * size + col;

            list.push(top_left);
            list.push(bottom_left);
            list.push(top_right);

            let bottom_right = (row + 1) * size + col + 1;

            list.push(top_right);
            list.push(bottom_left);
            list.push(bottom_right);
            proof {
                assert(list@ =~= head + list_row(n, row as int, col + 1));
            }
            col = col + 1;
        }
        row = row + 1;
    }
    list
}

/// The triangle list of a grid of width `n` has 2(n-1)^2 triangles: 6(n-1)^2
/// indices.
pub proof fn lemma_list_len(n: int)
    requires
        1 <= n,
    ensures
        list_rows(n, n - 1).len() == 6 * (n - 1) * (n - 1),
{
    lemma_list_rows_len(n, n - 1);
}

proof fn lemma_list_row_len(n: int, row: int, cols: int)
    requires
        0 <= cols,
    ensures
        list_row(n, row, cols).len() == 6 * cols,
    decreases cols,
{
    if cols > 0 {
        lemma_list_row_len(n, row, cols - 1);
    }
}

proof fn lemma_list_rows_len(n: int, rows: int)
    requires
        1 <= n,
        0 <= rows,
    ensures
        list_rows(n, rows).len() == 6 * (n - 1) * rows,
    decreases rows,
{
    if rows > 0 {
        lemma_list_rows_len(n, rows - 1);
        lemma_list_row_len(n, rows - 1, n - 1);
        assert(6 * (n - 1) * (rows - 1) + 6 * (n - 1) == 6 * (n - 1) * rows) by (nonlinear_arith);
    } else {
        assert(6 * (n - 1) * rows == 0) by (nonlinear_arith)
            requires
                rows == 0,
        ;
    }
}

/// The indices of cell `c` sit at positions `6c` to `6c + 5` of a row.
proof fn lemma_list_row_at(n: int, row: int, cols: int, c: int, j: int)
    requires
        0 <= c < cols,
        0 <= j < 6,
    ensures
        list_row(n, row, cols)[6 * c + j] == cell_triangles(n, row, c)[j],
    decreases cols,
{
    lemma_list_row_len(n, row, cols - 1);
    if c < cols - 1 {
        lemma_list_row_at(n, row, cols - 1, c, j);
    }
}

/// The indices of row `r` sit at positions `6(n-1)r` onward.
proof fn lemma_list_rows_at(n: int, rows: int, r: int, k: int)
    requires
        1 <= n,
        0 <= r < rows,
        0 <= k < 6 * (n - 1),
    ensures
        list_rows(n, rows)[6 * (n - 1) * r + k] == list_row(n, r, n - 1)[k],
    decreases rows,
{
    lemma_list_rows_len(n, rows - 1);
    lemma_list_row_len(n, rows - 1, n - 1);
    if r < rows - 1 {
        lemma_list_rows_at(n, rows - 1, r, k);
        assert(6 * (n - 1) * r + k < 6 * (n - 1) * (rows - 1)) by (nonlinear_arith)
            requires
                r < rows - 1,
                k < 6 * (n - 1),
                1 <= n,
        ;
    }
}

/// The triangle list holds, for the cell at row `r` and column `c` of a
/// grid of width `n`, at positions `6(r(n-1) + c)` to `6(r(n-1) + c) + 5`,
/// the two triangles (top left, bottom left, top right) and (top right,
/// bottom left, bottom right), where the top left vertex is `rn + c`.
pub proof fn lemma_list_cells(n: int, r: int, c: int)
    requires
        1 <= n,
        n * n <= 0x1_0000_0000,
        0 <= r < n - 1,
        0 <= c < n - 1,
    ensures
        ({
            let l = list_rows(n, n - 1);
            let p = 6 * (r * (n - 1) + c);
            &&& l[p] as int == r * n + c
            &&& l[p + 1] as int == (r + 1) * n + c
            &&& l[p + 2] as int == r * n + c + 1
            &&& l[p + 3] as int == r * n + c + 1
            &&& l[p + 4] as int == (r + 1) * n + c
            &&& l[p + 5] as int == (r + 1) * n + c + 1
        }),
{
    let p = 6 * (r * (n - 1) + c);
    assert(p == 6 * (n - 1) * r + 6 * c) by (nonlinear_arith)
        requires
            p == 6 * (r * (n - 1) + c),
    ;
    assert(0 <= r * n + c && (r + 1) * n + c + 1 < n * n) by (nonlinear_arith)
        requires
            0 <= r < n - 1,
            0 <= c < n - 1,
    ;
    assert(r * n + c + 1 <= (r + 1) * n + c) by (nonlinear_arith)
        requires
            0 <= c < n - 1,
    ;
    assert forall|j: int| 0 <= j < 6 implies list_rows(n, n - 1)[p + j] == #[trigger] cell_triangles(n, r, c)[j] by {
        assert(0 <= 6 * c + j < 6 * (n - 1));
        lemma_list_rows_at(n, n - 1, r, 6 * c + j);
        lemma_list_row_at(n, r, n - 1, c, j);
    }
    assert(list_rows(n, n - 1)[p] == cell_triangles(n, r, c)[0]);
    assert(list_rows(n, n - 1)[p + 1] == cell_triangles(n, r, c)[1]);
    assert(list_rows(n, n - 1)[p + 2] == cell_triangles(n, r, c)[2]);
    assert(list_rows(n, n - 1)[p + 3] == cell_triangles(n, r, c)[3]);
    assert(list_rows(n, n - 1)[p + 4] == cell_triangles(n, r, c)[4]);
    assert(list_rows(n, n - 1)[p + 5] == cell_triangles(n, r, c)[5]);
}

/// Every index of the triangle strip names a vertex of the grid.
pub proof fn lemma_strip_in_grid(n: int)
    requires
        1 <= n,
        n * n <= 0x1_0000_0000,
    ensures
        forall|i: int| 0 <= i < strip_rows(n, n - 1).len() ==> #[trigger] strip_rows(n, n - 1)[i] < n * n,
{
    lemma_strip_rows_in_grid(n, n - 1);
}

/// A vertex of the grid has an index below `n * n`.
proof fn lemma_vertex_in_grid(n: int, row: int, col: int)
    requires
        0 <= row < n,
        0 <= col < n,
        n * n <= 0x1_0000_0000,
    ensures
        vertex(n, row, col) == row * n + col,
        vertex(n, row, col) < n * n,
{
    lemma_vertex_bound(n, row, col);
}

proof fn lemma_zigzag_in_grid(n: int, row: int, cols: int)
    requires
        0 <= row < n - 1,
        0 <= cols <= n,
        n * n <= 0x1_0000_0000,
    ensures
        forall|i: int| 0 <= i < zigzag(n, row, cols).len() ==> #[trigger] zigzag(n, row, cols)[i] < n * n,
    decreases cols,
{
    if cols > 0 {
        lemma_zigzag_in_grid(n, row, cols - 1);
        lemma_vertex_in_grid(n, row, cols - 1);
        lemma_vertex_in_grid(n, row + 1, cols - 1);
        let z = zigzag(n, row, cols - 1);
        assert forall|i: int| 0 <= i < zigzag(n, row, cols).len() implies #[trigger] zigzag(n, row, cols)[i] < n * n by {
            if i < z.len() {
                assert(zigzag(n, row, cols)[i] == z[i]);
            }
        }
    }
}

proof fn lemma_strip_rows_in_grid(n: int, rows: int)
    requires
        1 <= n,
        0 <= rows <= n - 1,
        n * n <= 0x1_0000_0000,
    ensures
        forall|i: int| 0 <= i < strip_rows(n, rows).len() ==> #[trigger] strip_rows(n, rows)[i] < n * n,
    decreases rows,
{
    if rows > 0 {
        let r = rows - 1;
        lemma_strip_rows_in_grid(n, r);
        lemma_zigzag_in_grid(n, r, n);
        lemma_vertex_in_grid(n, r, 0);
        lemma_vertex_in_grid(n, r + 1, n - 1);
        let head = strip_rows(n, r);
        let pre = if r > 0 {
            seq![vertex(n, r, 0)]
        } else {
            Seq::<u32>::empty()
        };
        let z = zigzag(n, r, n);
        let post = if r < n - 2 {
            seq![vertex(n, r + 1, n - 1)]
        } else {
            Seq::<u32>::empty()
        };
        let all = strip_rows(n, rows);
        assert(all =~= head + (pre + z + post));
        assert forall|i: int| 0 <= i < all.len() implies #[trigger] all[i] < n * n by {
            if i < head.len() {
                assert(all[i] == head[i]);
            } else if i < head.len() + pre.len() {
                assert(all[i] == pre[i - head.len()]);
            } else if i < head.len() + pre.len() + z.len() {
                assert(all[i] == z[i - head.len() - pre.len()]);
            } else {
                assert(all[i] == post[i - head.len() - pre.len() - z.len()]);
            }
        }
    }
}

} // verus!
