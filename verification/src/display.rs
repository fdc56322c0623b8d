//! Human-facing grid rendering.
//!
//! A rank-1 tensor renders as one right-aligned row, a rank-2 tensor as a
//! right-aligned grid with one width per column. A row shows at most
//! [`MAX_TENSOR_PREVIEW_VALUES`] values and a grid at most
//! [`MAX_DISPLAY_COLUMNS`] columns unless the alternate form is asked for;
//! what is cut off is announced on a final line. Cell texts come from a
//! caller-supplied closure, called with the flat (row-major) index of each
//! cell shown, in order.
//!
//! Widths are measured in UTF-8 bytes and cells are padded on the left with
//! spaces up to that many characters, so an all-ASCII grid lines up exactly.

use vstd::prelude::*;
use vstd::string::*;
use vstd::utf8::encode_utf8;
use crate::dynamic::DynamicTensor;
use crate::text::{decimal, decimal_text, shape_text, shape_text_spec};

verus! {

/// Columns shown in a rank-2 grid before truncation (unless alternate).
pub const MAX_DISPLAY_COLUMNS: usize = 12;

/// Values shown in a rank-1 row before truncation (unless alternate).
pub const MAX_TENSOR_PREVIEW_VALUES: usize = 12;

/// Width of a cell: the length of its UTF-8 encoding.
pub open spec fn byte_width(s: Seq<char>) -> usize {
    encode_utf8(s).len() as usize
}

/// The largest [`byte_width`] among `cells` (0 when there are none).
pub open spec fn max_width(cells: Seq<Seq<char>>) -> usize
    decreases cells.len(),
{
    if cells.len() == 0 {
        0
    } else {
        let m = max_width(cells.drop_last());
        let w = byte_width(cells.last());
        if m < w {
            w
        } else {
            m
        }
    }
}

/// `n` spaces.
pub open spec fn spaces(n: nat) -> Seq<char> {
    Seq::new(n, |_i: int| ' ')
}

/// `s` right-aligned in a field of `width` characters.
pub open spec fn pad_left_text(s: Seq<char>, width: nat) -> Seq<char> {
    if s.len() < width {
        spaces((width - s.len()) as nat) + s
    } else {
        s
    }
}

/// The items joined with `sep` between consecutive ones.
pub open spec fn join_text(items: Seq<Seq<char>>, sep: Seq<char>) -> Seq<char>
    decreases items.len(),
{
    if items.len() == 0 {
        Seq::empty()
    } else if items.len() == 1 {
        items[0]
    } else {
        join_text(items.drop_last(), sep) + sep + items.last()
    }
}

/// The texts of a list of strings.
pub open spec fn texts(items: Seq<String>) -> Seq<Seq<char>> {
    Seq::new(items.len(), |i: int| items[i]@)
}

/// How many of `total` items are shown under a cap of `cap` (all of them
/// in the alternate form).
pub open spec fn shown_count(total: nat, cap: nat, alternate: bool) -> nat {
    if alternate || total <= cap {
        total
    } else {
        cap
    }
}

/// The rendering of a row whose shown cells are `cells`, out of `n`.
pub open spec fn row_text(cells: Seq<Seq<char>>, n: nat) -> Seq<char> {
    let w = max_width(cells) as nat;
    let line = join_text(Seq::new(cells.len(), |i: int| pad_left_text(cells[i], w)), seq![' ']);
    if cells.len() < n {
        line + "\n... "@ + decimal_text((n - cells.len()) as nat) + " more values"@
    } else {
        line
    }
}

/// Column `c` of a grid of cell texts.
pub open spec fn column(cells: Seq<Seq<Seq<char>>>, c: int) -> Seq<Seq<char>> {
    Seq::new(cells.len(), |r: int| cells[r][c])
}

/// Line `r` of a grid whose rows have `shown` cells each, every column
/// padded to its own width.
pub open spec fn grid_line(cells: Seq<Seq<Seq<char>>>, shown: nat, r: int) -> Seq<char> {
    join_text(
        Seq::new(shown, |c: int| pad_left_text(cells[r][c], max_width(column(cells, c)) as nat)),
        seq![' '],
    )
}

/// The rendering of a grid whose shown cells are `cells` (one sequence
/// per row, `shown` cells each), out of `cols` columns.
pub open spec fn grid_text(cells: Seq<Seq<Seq<char>>>, shown: nat, cols: nat) -> Seq<char> {
    let body = join_text(Seq::new(cells.len(), |r: int| grid_line(cells, shown, r)), seq!['\n']);
    if shown < cols {
        body + "\n... "@ + decimal_text((cols - shown) as nat) + " more columns"@
    } else {
        body
    }
}

/// `cells[i]` is a result that `cell` may give for index `i`, for every `i`.
pub open spec fn row_cells_from<F: Fn(usize) -> String>(cell: F, cells: Seq<String>) -> bool {
    forall|i: int| 0 <= i < cells.len() ==> cell.ensures((i as usize,), #[trigger] cells[i])
}

/// `cells[r][c]` is a result that `cell` may give for the flat index
/// `r * cols + c`, for every shown cell; each row has `shown` cells.
pub open spec fn grid_cells_from<F: Fn(usize) -> String>(
    cell: F,
    cells: Seq<Seq<String>>,
    cols: nat,
    shown: nat,
) -> bool {
    &&& forall|r: int| 0 <= r < cells.len() ==> (#[trigger] cells[r]).len() == shown
    &&& forall|r: int, c: int|
        0 <= r < cells.len() && 0 <= c < shown ==> cell.ensures(
            ((r * cols + c) as usize,),
            #[trigger] cells[r][c],
        )
}

proof fn lemma_join_step(items: Seq<Seq<char>>, sep: Seq<char>, i: int)
    requires
        0 <= i < items.len(),
    ensures
        join_text(items.take(i + 1), sep) == if i == 0 {
            items[0]
        } else {
            join_text(items.take(i), sep) + sep + items[i]
        },
{
    let s = items.take(i + 1);
    if i > 0 {
        assert(s.drop_last() =~= items.take(i));
    }
}

proof fn lemma_max_width_step(cells: Seq<Seq<char>>, i: int)
    requires
        0 <= i < cells.len(),
    ensures
        max_width(cells.take(i + 1)) == if max_width(cells.take(i)) < byte_width(cells[i]) {
            byte_width(cells[i])
        } else {
            max_width(cells.take(i))
        },
{
    assert(cells.take(i + 1).drop_last() =~= cells.take(i));
}

/// `s` right-aligned in a field of `width` characters.
pub fn pad_left_to(s: &str, width: usize) -> (r: String)
    ensures
        r@ == pad_left_text(s@, width as nat),
{
    let n = s.unicode_len();
    let mut r = String::new();
    if n < width {
        proof {
            reveal_strlit(" ");
        }
        let pad = width - n;
        let mut k: usize = 0;
        while k < pad
            invariant
                k <= pad,
                r@ == spaces(k as nat),
                " "@ == seq![' '],
            decreases pad - k,
        {
            r.append(" ");
            k = k + 1;
            assert(r@ =~= spaces(k as nat));
        }
    }
    r.append(s);
    proof {
        if n >= width {
            assert(r@ =~= s@);
        }
    }
    r
}

/// The items joined with `sep` between consecutive ones.
pub fn join_strings(items: &Vec<String>, sep: &str) -> (r: String)
    ensures
        r@ == join_text(texts(items@), sep@),
{
    let n = items.len();
    let ghost all = texts(items@);
    let mut r = String::new();
    let mut i: usize = 0;
    while i < n
        invariant
            i <= n,
            n == items@.len(),
            all == texts(items@),
            r@ == join_text(all.take(i as int), sep@),
        decreases n - i,
    {
        proof {
            lemma_join_step(all, sep@, i as int);
        }
        if i > 0 {
            r.append(sep);
        }
        r.append(items[i].as_str());
        proof {
            if i == 0 {
                assert(r@ =~= all[0]);
            } else {
                assert(r@ =~= join_text(all.take(i as int), sep@) + sep@ + all[i as int]);
            }
        }
        i = i + 1;
    }
    proof {
        assert(all.take(n as int) =~= all);
    }
    r
}

/// The largest UTF-8 byte length among `items` (0 when there are none).
pub fn max_byte_width(items: &Vec<String>) -> (r: usize)
    ensures
        r == max_width(texts(items@)),
{
    let n = items.len();
    let ghost all = texts(items@);
    let mut w: usize = 0;
    let mut i: usize = 0;
    while i < n
        invariant
            i <= n,
            n == items@.len(),
            all == texts(items@),
            w == max_width(all.take(i as int)),
        decreases n - i,
    {
        proof {
            lemma_max_width_step(all, i as int);
            assert(all.take(0) =~= Seq::<Seq<char>>::empty());
        }
        let b = items[i].as_str().len();
        if w < b {
            w = b;
        }
        i = i + 1;
    }
    proof {
        assert(all.take(n as int) =~= all);
    }
    w
}

/// Right-aligns `n` cells, produced by `cell(flat_index)`, into one row;
/// at most [`MAX_TENSOR_PREVIEW_VALUES`] are shown unless `alternate`, and
/// a final line says how many more there are.
pub fn row<F: Fn(usize) -> String>(n: usize, alternate: bool, cell: F) -> (r: String)
    requires
        forall|i: usize| i < n ==> cell.requires((i,)),
    ensures
        exists|cells: Seq<String>|
            #[trigger] row_cells_from(cell, cells) && cells.len() == shown_count(
                n as nat,
                MAX_TENSOR_PREVIEW_VALUES as nat,
                alternate,
            ) && r@ == row_text(texts(cells), n as nat),
{
    let shown = if alternate || n <= MAX_TENSOR_PREVIEW_VALUES {
        n
    } else {
        MAX_TENSOR_PREVIEW_VALUES
    };
    let mut cells: Vec<String> = Vec::new();
    let mut i: usize = 0;
    while i < shown
        invariant
            i <= shown <= n,
            forall|k: usize| k < n ==> cell.requires((k,)),
            cells@.len() == i,
            row_cells_from(cell, cells@),
        decreases shown - i,
    {
        let c = cell(i);
        cells.push(c);
        i = i + 1;
    }
    let width = max_byte_width(&cells);
    let ghost ts = texts(cells@);
    let mut padded: Vec<String> = Vec::new();
    let mut j: usize = 0;
    while j < shown
        invariant
            j <= shown,
            cells@.len() == shown,
            ts == texts(cells@),
            padded@.len() == j,
            forall|k: int| 0 <= k < j ==> (#[trigger] padded@[k])@ == pad_left_text(ts[k], width as nat),
        decreases shown - j,
    {
        let p = pad_left_to(cells[j].as_str(), width);
        padded.push(p);
        j = j + 1;
    }
    proof {
        reveal_strlit(" ");
        assert(" "@ =~= seq![' ']);
        assert(texts(padded@) =~= Seq::new(ts.len(), |k: int| pad_left_text(ts[k], width as nat)));
    }
    let line = join_strings(&padded, " ");
    proof {
        assert(row_cells_from(cell, cells@));
        assert(line@ == join_text(
            Seq::new(ts.len(), |k: int| pad_left_text(ts[k], max_width(ts) as nat)),
            seq![' '],
        ));
    }
    if shown < n {
        let mut out = line;
        out.append("\n... ");
        out.append(decimal(n - shown).as_str());
        out.append(" more values");
        proof {
            assert(out@ == row_text(texts(cells@), n as nat));
        }
        out
    } else {
        proof {
            assert(line@ == row_text(texts(cells@), n as nat));
        }
        line
    }
}

/// The rows of a vector of vectors, each by its view.
pub open spec fn vec_rows<T>(v: Seq<Vec<T>>) -> Seq<Seq<T>> {
    Seq::new(v.len(), |r: int| v[r]@)
}

/// The texts of a grid of strings, row by row.
pub open spec fn grid_texts(cells: Seq<Seq<String>>) -> Seq<Seq<Seq<char>>> {
    Seq::new(cells.len(), |r: int| texts(cells[r]))
}

/// Right-aligns a `rows` x `cols` grid, each cell produced by
/// `cell(flat_index)`, with one width per column; at most
/// [`MAX_DISPLAY_COLUMNS`] columns are shown unless `alternate`, and a final
/// line says how many more there are.
pub fn grid<F: Fn(usize) -> String>(rows: usize, cols: usize, alternate: bool, cell: F) -> (r:
    String)
    requires
        rows * cols <= usize::MAX,
        forall|i: usize| i < rows * cols ==> cell.requires((i,)),
    ensures
        exists|cells: Seq<Seq<String>>|
            #[trigger] grid_cells_from(
                cell,
                cells,
                cols as nat,
                shown_count(cols as nat, MAX_DISPLAY_COLUMNS as nat, alternate),
            ) && cells.len() == rows && r@ == grid_text(
                grid_texts(cells),
                shown_count(cols as nat, MAX_DISPLAY_COLUMNS as nat, alternate),
                cols as nat,
            ),
{
    let shown = if alternate || cols <= MAX_DISPLAY_COLUMNS {
        cols
    } else {
        MAX_DISPLAY_COLUMNS
    };
    let mut formatted: Vec<Vec<String>> = Vec::new();
    let mut r: usize = 0;
    while r < rows
        invariant
            r <= rows,
            shown <= cols,
            rows * cols <= usize::MAX,
            forall|i: usize| i < rows * cols ==> cell.requires((i,)),
            formatted@.len() == r,
            grid_cells_from(cell, vec_rows(formatted@), cols as nat, shown as nat),
        decreases rows - r,
    {
        let mut line: Vec<String> = Vec::new();
        let mut c: usize = 0;
        while c < shown
            invariant
                r < rows,
                c <= shown <= cols,
                rows * cols <= usize::MAX,
                forall|i: usize| i < rows * cols ==> cell.requires((i,)),
                line@.len() == c,
                forall|k: int|
                    0 <= k < c ==> cell.ensures(((r * cols + k) as usize,), #[trigger] line@[k]),
            decreases shown - c,
        {
            assert(r * cols + c < rows * cols) by (nonlinear_arith)
                requires
                    r < rows,
                    c < cols,
            ;
            let v = cell(r * cols + c);
            line.push(v);
            c = c + 1;
        }
        let ghost before = vec_rows(formatted@);
        let ghost line_view = line@;
        formatted.push(line);
        proof {
            let vr = vec_rows(formatted@);
            assert forall|k: int| 0 <= k < vr.len() implies (#[trigger] vr[k]).len() == shown by {
                if k < r {
                    assert(vr[k] == before[k]);
                } else {
                    assert(vr[k] == line_view);
                }
            }
            assert forall|i: int, j: int| 0 <= i < vr.len() && 0 <= j < shown implies cell.ensures(
                ((i * cols + j) as usize,),
                #[trigger] vr[i][j],
            ) by {
                if i < r {
                    assert(vr[i] == before[i]);
                } else {
                    assert(vr[i] == line_view);
                }
            }
        }
        r = r + 1;
    }
    proof {
        assert forall|k: int| 0 <= k < rows implies (#[trigger] formatted@[k]).len() == shown by {
            assert(vec_rows(formatted@)[k] == formatted@[k]@);
        }
    }
    let ghost gt = grid_texts(vec_rows(formatted@));
    let mut widths: Vec<usize> = Vec::new();
    let mut c: usize = 0;
    while c < shown
        invariant
            c <= shown,
            formatted@.len() == rows,
            forall|k: int| 0 <= k < rows ==> (#[trigger] formatted@[k]).len() == shown,
            gt == grid_texts(vec_rows(formatted@)),
            widths@.len() == c,
            forall|k: int| 0 <= k < c ==> #[trigger] widths@[k] == max_width(column(gt, k)),
        decreases shown - c,
    {
        let ghost col = column(gt, c as int);
        let mut w: usize = 0;
        let mut k: usize = 0;
        while k < rows
            invariant
                k <= rows,
                c < shown,
                formatted@.len() == rows,
                forall|q: int| 0 <= q < rows ==> (#[trigger] formatted@[q]).len() == shown,
                gt == grid_texts(vec_rows(formatted@)),
                col == column(gt, c as int),
                w == max_width(col.take(k as int)),
            decreases rows - k,
        {
            proof {
                lemma_max_width_step(col, k as int);
                assert(col.take(0) =~= Seq::<Seq<char>>::empty());
                assert(col[k as int] == formatted@[k as int]@[c as int]@);
            }
            let b = formatted[k][c].as_str().len();
            if w < b {
                w = b;
            }
            k = k + 1;
        }
        proof {
            assert(col.take(rows as int) =~= col);
        }
        widths.push(w);
        c = c + 1;
    }
    let mut lines: Vec<String> = Vec::new();
    let mut q: usize = 0;
    proof {
        reveal_strlit(" ");
        assert(" "@ =~= seq![' ']);
    }
    while q < rows
        invariant
            q <= rows,
            formatted@.len() == rows,
            forall|k: int| 0 <= k < rows ==> (#[trigger] formatted@[k]).len() == shown,
            gt == grid_texts(vec_rows(formatted@)),
            widths@.len() == shown,
            forall|k: int| 0 <= k < shown ==> #[trigger] widths@[k] == max_width(column(gt, k)),
            " "@ == seq![' '],
            lines@.len() == q,
            forall|k: int| 0 <= k < q ==> (#[trigger] lines@[k])@ == grid_line(gt, shown as nat, k),
        decreases rows - q,
    {
        let mut padded: Vec<String> = Vec::new();
        let mut c: usize = 0;
        while c < shown
            invariant
                q < rows,
                c <= shown,
                formatted@.len() == rows,
                forall|k: int| 0 <= k < rows ==> (#[trigger] formatted@[k]).len() == shown,
                gt == grid_texts(vec_rows(formatted@)),
                widths@.len() == shown,
                forall|k: int| 0 <= k < shown ==> #[trigger] widths@[k] == max_width(column(gt, k)),
                padded@.len() == c,
                forall|k: int|
                    0 <= k < c ==> (#[trigger] padded@[k])@ == pad_left_text(
                        gt[q as int][k],
                        max_width(column(gt, k)) as nat,
                    ),
            decreases shown - c,
        {
            let p = pad_left_to(formatted[q][c].as_str(), widths[c]);
            padded.push(p);
            c = c + 1;
        }
        proof {
            assert(texts(padded@) =~= Seq::new(
                shown as nat,
                |k: int| pad_left_text(gt[q as int][k], max_width(column(gt, k)) as nat),
            ));
        }
        let line = join_strings(&padded, " ");
        lines.push(line);
        q = q + 1;
    }
    proof {
        reveal_strlit("\n");
        assert("\n"@ =~= seq!['\n']);
        assert(texts(lines@) =~= Seq::new(gt.len(), |k: int| grid_line(gt, shown as nat, k)));
        assert(grid_cells_from(cell, vec_rows(formatted@), cols as nat, shown as nat));
    }
    let body = join_strings(&lines, "\n");
    proof {
        assert(shown as nat == shown_count(cols as nat, MAX_DISPLAY_COLUMNS as nat, alternate));
        assert(body@ == join_text(
            Seq::new(gt.len(), |k: int| grid_line(gt, shown as nat, k)),
            seq!['\n'],
        ));
    }
    if shown < cols {
        let mut out = body;
        out.append("\n... ");
        out.append(decimal(cols - shown).as_str());
        out.append(" more columns");
        proof {
            assert(out@ == grid_text(gt, shown as nat, cols as nat));
        }
        out
    } else {
        proof {
            assert(body@ == grid_text(gt, shown as nat, cols as nat));
        }
        body
    }
}

/// `cells[i]` is what `cell_text` may give for logical element `i` of
/// `elements`, or empty text past the end, for every `i`.
pub open spec fn element_cells<E, F: Fn(&E) -> String>(
    cell_text: F,
    elements: Seq<E>,
    cells: Seq<String>,
) -> bool {
    forall|i: int|
        0 <= i < cells.len() ==> if i < elements.len() {
            cell_text.ensures((&elements[i],), #[trigger] cells[i])
        } else {
            cells[i]@ == Seq::<char>::empty()
        }
}

/// `cells[r][c]` is what `cell_text` may give for logical element
/// `r * cols + c` of `elements`, or empty text past the end.
pub open spec fn element_grid_cells<E, F: Fn(&E) -> String>(
    cell_text: F,
    elements: Seq<E>,
    cells: Seq<Seq<String>>,
    cols: nat,
    shown: nat,
) -> bool {
    &&& forall|r: int| 0 <= r < cells.len() ==> (#[trigger] cells[r]).len() == shown
    &&& forall|r: int, c: int|
        0 <= r < cells.len() && 0 <= c < shown ==> if r * cols + c < elements.len() {
            cell_text.ensures((&elements[r * cols + c],), #[trigger] cells[r][c])
        } else {
            cells[r][c]@ == Seq::<char>::empty()
        }
}

/// The fallback rendering of a tensor of rank above two.
pub open spec fn flat_text(shape: Seq<usize>, cells: Seq<Seq<char>>) -> Seq<char> {
    "shape="@ + shape_text_spec(shape) + " values=["@ + join_text(cells, ", "@) + "]"@
}

/// Renders a dynamic tensor: rank 0 as its one cell, rank 1 as a [`row`],
/// rank 2 as a [`grid`], higher ranks as `shape=[..] values=[..]`. Each
/// element's text comes from `cell_text`; a position past the stored
/// elements renders as empty text.
pub fn fmt_dynamic<E, F: Fn(&E) -> String>(t: &DynamicTensor<E>, alternate: bool, cell_text: F) -> (r:
    String)
    requires
        forall|e: &E| cell_text.requires((e,)),
        t.dims().len() == 2 ==> t.dims()[0] * t.dims()[1] <= usize::MAX,
    ensures
        t.dims().len() == 0 ==> exists|cells: Seq<String>|
            #[trigger] element_cells(cell_text, t.elements(), cells) && cells.len() == 1 && r@
                == cells[0]@,
        t.dims().len() == 1 ==> exists|cells: Seq<String>|
            #[trigger] element_cells(cell_text, t.elements(), cells) && cells.len()
                == shown_count(t.dims()[0] as nat, MAX_TENSOR_PREVIEW_VALUES as nat, alternate)
                && r@ == row_text(texts(cells), t.dims()[0] as nat),
        t.dims().len() == 2 ==> exists|cells: Seq<Seq<String>>|
            #[trigger] element_grid_cells(
                cell_text,
                t.elements(),
                cells,
                t.dims()[1] as nat,
                shown_count(t.dims()[1] as nat, MAX_DISPLAY_COLUMNS as nat, alternate),
            ) && cells.len() == t.dims()[0] && r@ == grid_text(
                grid_texts(cells),
                shown_count(t.dims()[1] as nat, MAX_DISPLAY_COLUMNS as nat, alternate),
                t.dims()[1] as nat,
            ),
        t.dims().len() > 2 ==> exists|cells: Seq<String>|
            #[trigger] element_cells(cell_text, t.elements(), cells) && cells.len()
                == t.elements().len() && r@ == flat_text(t.dims(), texts(cells)),
{
    let ghost elements = t.elements();
    let text_of = &cell_text;
    let cell = |i: usize| -> (s: String)
        requires
            forall|e: &E| text_of.requires((e,)),
        ensures
            i < t.elements().len() ==> text_of.ensures((&t.elements()[i as int],), s),
            i >= t.elements().len() ==> s@ == Seq::<char>::empty(),
        {
            match t.get_flat(i) {
                Some(e) => text_of(e),
                None => String::new(),
            }
        };
    let shape = t.shape();
    if shape.len() == 0 {
        let c = cell(0);
        let ghost cells = seq![c];
        assert(element_cells(cell_text, elements, cells));
        c
    } else if shape.len() == 1 {
        let out = row(shape[0], alternate, cell);
        proof {
            let cells = choose|cells: Seq<String>|
                #[trigger] row_cells_from(cell, cells) && cells.len() == shown_count(
                    shape[0] as nat,
                    MAX_TENSOR_PREVIEW_VALUES as nat,
                    alternate,
                ) && out@ == row_text(texts(cells), shape[0] as nat);
            assert(element_cells(cell_text, elements, cells));
        }
        out
    } else if shape.len() == 2 {
        let out = grid(shape[0], shape[1], alternate, cell);
        proof {
            let shown = shown_count(shape[1] as nat, MAX_DISPLAY_COLUMNS as nat, alternate);
            let cells = choose|cells: Seq<Seq<String>>|
                #[trigger] grid_cells_from(cell, cells, shape[1] as nat, shown) && cells.len()
                    == shape[0] && out@ == grid_text(grid_texts(cells), shown, shape[1] as nat);
            assert forall|r: int, c: int|
                0 <= r < cells.len() && 0 <= c < shown implies if r * shape[1] + c
                < elements.len() {
                cell_text.ensures((&elements[r * shape[1] + c],), #[trigger] cells[r][c])
            } else {
                cells[r][c]@ == Seq::<char>::empty()
            } by {
                assert(r * shape[1] + c <= usize::MAX) by (nonlinear_arith)
                    requires
                        0 <= r < shape[0],
                        0 <= c < shown,
                        shown <= shape[1],
                        shape[0] * shape[1] <= usize::MAX,
                ;
                assert(cell.ensures(((r * shape[1] + c) as usize,), cells[r][c]));
            }
            assert(element_grid_cells(cell_text, elements, cells, shape[1] as nat, shown));
        }
        out
    } else {
        let n = t.len();
        let mut cells: Vec<String> = Vec::new();
        let mut i: usize = 0;
        while i < n
            invariant
                i <= n,
                n == elements.len(),
                elements == t.elements(),
                text_of == &cell_text,
                forall|k: usize| cell.requires((k,)),
                forall|k: usize, s: String|
                    #[trigger] cell.ensures((k,), s) ==> (k < elements.len() ==> text_of.ensures(
                        (&elements[k as int],),
                        s,
                    )) && (k >= elements.len() ==> s@ == Seq::<char>::empty()),
                cells@.len() == i,
                element_cells(cell_text, elements, cells@),
            decreases n - i,
        {
            let c = cell(i);
            let ghost before = cells@;
            cells.push(c);
            proof {
                assert forall|k: int| 0 <= k < cells@.len() implies if k < elements.len() {
                    cell_text.ensures((&elements[k],), #[trigger] cells@[k])
                } else {
                    cells@[k]@ == Seq::<char>::empty()
                } by {
                    if k < i {
                        assert(cells@[k] == before[k]);
                    } else {
                        assert(cell.ensures((i,), c));
                    }
                }
            }
            i = i + 1;
        }
        let mut out = String::from_str("shape=");
        out.append(shape_text(shape).as_str());
        out.append(" values=[");
        out.append(join_strings(&cells, ", ").as_str());
        out.append("]");
        out
    }
}

} // verus!
