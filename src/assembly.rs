use vstd::prelude::*;

verus! {

/// An 8-bit colour as it goes into the output buffer.
#[derive(Clone, Copy, PartialEq, Eq, Debug, Structural)]
pub struct Rgb {
    pub r: u8,
    pub g: u8,
    pub b: u8,
}

/// Number of pixels of `s` that are still missing.
pub open spec fn count_missing(s: Seq<Option<Rgb>>) -> nat
    decreases s.len(),
{
    if s.len() == 0 {
        0
    } else {
        count_missing(s.drop_last()) + if s.last() is None {
            1nat
        } else {
            0nat
        }
    }
}

/// Position of pixel `(x, y)` in a buffer of rows `width` wide.
pub open spec fn pixel_index(width: u32, x: u32, y: u32) -> int {
    y * width + x
}

/// `s` after writing the pixels of `batch` in order: a later write to the
/// same pixel wins.
pub open spec fn painted(s: Seq<Option<Rgb>>, batch: Seq<(u32, u32, Rgb)>, width: u32) -> Seq<
    Option<Rgb>,
>
    decreases batch.len(),
{
    if batch.len() == 0 {
        s
    } else {
        let (x, y, c) = batch.last();
        painted(s, batch.drop_last(), width).update(pixel_index(width, x, y), Some(c))
    }
}

proof fn lemma_pixel_index_bound(width: u32, height: u32, x: u32, y: u32)
    requires
        x < width,
        y < height,
    ensures
        0 <= pixel_index(width, x, y) < width * height,
        y * width + x < width * height,
{
    assert(y * width + x < width * height) by (nonlinear_arith)
        requires
            x < width,
            y < height,
    ;
}

/// The four bytes a pixel takes in the output: red, green, blue and an
/// opaque alpha; a pixel that never arrived is black.
pub open spec fn rgba_of(p: Option<Rgb>) -> Seq<u8> {
    match p {
        Some(c) => seq![c.r, c.g, c.b, 255u8],
        None => seq![0u8, 0u8, 0u8, 255u8],
    }
}

proof fn lemma_count_missing_bound(s: Seq<Option<Rgb>>)
    ensures
        count_missing(s) <= s.len(),
        count_missing(s) == 0 <==> forall|i: int| 0 <= i < s.len() ==> s[i] is Some,
    decreases s.len(),
{
    if s.len() > 0 {
        lemma_count_missing_bound(s.drop_last());
        if count_missing(s) == 0 {
            assert forall|i: int| 0 <= i < s.len() implies s[i] is Some by {
                if i < s.len() - 1 {
                    assert(s.drop_last()[i] == s[i]);
                }
            }
        }
        if forall|i: int| 0 <= i < s.len() ==> s[i] is Some {
            assert forall|i: int| 0 <= i < s.drop_last().len() implies s.drop_last()[i] is Some by {
                assert(s.drop_last()[i] == s[i]);
            }
        }
    }
}

proof fn lemma_count_missing_update(s: Seq<Option<Rgb>>, i: int, c: Rgb)
    requires
        0 <= i < s.len(),
    ensures
        count_missing(s.update(i, Some(c))) + (if s[i] is None {
            1nat
        } else {
            0nat
        }) == count_missing(s),
    decreases s.len(),
{
    let t = s.update(i, Some(c));
    if i == s.len() - 1 {
        assert(t.drop_last() =~= s.drop_last());
    } else {
        lemma_count_missing_update(s.drop_last(), i, c);
        assert(t.drop_last() =~= s.drop_last().update(i, Some(c)));
    }
}

proof fn lemma_count_missing_empty(n: nat)
    ensures
        count_missing(Seq::new(n, |i: int| None::<Rgb>)) == n,
    decreases n,
{
    if n > 0 {
        lemma_count_missing_empty((n - 1) as nat);
        assert(Seq::new(n, |i: int| None::<Rgb>).drop_last() =~= Seq::new(
            (n - 1) as nat,
            |i: int| None::<Rgb>,
        ));
    }
}

/// A `width` x `height` image in which no pixel has arrived.
pub open spec fn blank(width: u32, height: u32) -> Seq<Option<Rgb>> {
    Seq::new((width * height) as nat, |i: int| None::<Rgb>)
}

/// `s` after writing each batch of `batches` in the order they arrived.
pub open spec fn paint_all(
    s: Seq<Option<Rgb>>,
    batches: Seq<Seq<(u32, u32, Rgb)>>,
    width: u32,
) -> Seq<Option<Rgb>>
    decreases batches.len(),
{
    if batches.len() == 0 {
        s
    } else {
        painted(paint_all(s, batches.drop_last(), width), batches.last(), width)
    }
}

/// Whether some batch of `batches` holds pixel `(x, y)`.
pub open spec fn delivers(batches: Seq<Seq<(u32, u32, Rgb)>>, x: u32, y: u32) -> bool {
    exists|i: int, k: int|
        0 <= i < batches.len() && 0 <= k < batches[i].len() && #[trigger] batches[i][k].0 == x
            && batches[i][k].1 == y
}

/// Whether every pixel of `batch` lies in a `width` x `height` image.
pub open spec fn batch_in_bounds(batch: Seq<(u32, u32, Rgb)>, width: u32, height: u32) -> bool {
    forall|k: int| 0 <= k < batch.len() ==> #[trigger] batch[k].0 < width && batch[k].1 < height
}

proof fn lemma_painted_keeps(s: Seq<Option<Rgb>>, batch: Seq<(u32, u32, Rgb)>, width: u32, height: u32)
    requires
        s.len() == width * height,
        batch_in_bounds(batch, width, height),
    ensures
        painted(s, batch, width).len() == s.len(),
        forall|i: int| 0 <= i < s.len() && s[i] is Some ==> #[trigger] painted(s, batch, width)[i] is Some,
        forall|k: int|
            0 <= k < batch.len() ==> painted(s, batch, width)[pixel_index(
                width,
                #[trigger] batch[k].0,
                batch[k].1,
            )] is Some,
    decreases batch.len(),
{
    if batch.len() > 0 {
        let front = batch.drop_last();
        lemma_painted_keeps(s, front, width, height);
        let (x, y, c) = batch.last();
        lemma_pixel_index_bound(width, height, x, y);
        assert forall|k: int| 0 <= k < batch.len() implies painted(s, batch, width)[pixel_index(
            width,
            #[trigger] batch[k].0,
            batch[k].1,
        )] is Some by {
            if k < batch.len() - 1 {
                assert(batch[k] == front[k]);
                let (xk, yk, ck) = batch[k];
                lemma_pixel_index_bound(width, height, xk, yk);
            }
        }
    }
}

/// Result batches that together hold every pixel of the image, received in
/// whatever order, leave no pixel of a fresh image missing: the image is
/// then complete.
pub proof fn lemma_batches_complete_image(
    width: u32,
    height: u32,
    batches: Seq<Seq<(u32, u32, Rgb)>>,
)
    requires
        forall|i: int| 0 <= i < batches.len() ==> batch_in_bounds(#[trigger] batches[i], width, height),
        forall|x: u32, y: u32| x < width && y < height ==> #[trigger] delivers(batches, x, y),
    ensures
        paint_all(blank(width, height), batches, width).len()
            == width * height,
        forall|i: int|
            0 <= i < width * height ==> (#[trigger] paint_all(
                blank(width, height),
                batches,
                width,
            )[i]) is Some,
{
    let s = blank(width, height);
    lemma_paint_all_covers(s, batches, width, height);
    assert forall|i: int| 0 <= i < width * height implies (#[trigger] paint_all(
        s,
        batches,
        width,
    )[i]) is Some by {
        let w = width as int;
        assert(w > 0) by (nonlinear_arith)
            requires
                0 <= i < w * height as int,
                w >= 0,
                height >= 0,
        ;
        vstd::arithmetic::div_mod::lemma_fundamental_div_mod(i, w);
        assert(0 <= i % w < w);
        assert(0 <= i / w < height) by (nonlinear_arith)
            requires
                0 <= i < w * height as int,
                w > 0,
        ;
        let x = (i % w) as u32;
        let y = (i / w) as u32;
        assert(delivers(batches, x, y));
        let (bi, k) = choose|bi: int, k: int|
            0 <= bi < batches.len() && 0 <= k < batches[bi].len() && #[trigger] batches[bi][k].0 == x
                && batches[bi][k].1 == y;
        assert((i / w) * w == w * (i / w)) by (nonlinear_arith);
        assert(pixel_index(width, x, y) == i);
    }
}

proof fn lemma_paint_all_covers(
    s: Seq<Option<Rgb>>,
    batches: Seq<Seq<(u32, u32, Rgb)>>,
    width: u32,
    height: u32,
)
    requires
        s.len() == width * height,
        forall|i: int| 0 <= i < batches.len() ==> batch_in_bounds(#[trigger] batches[i], width, height),
    ensures
        paint_all(s, batches, width).len() == s.len(),
        forall|i: int| 0 <= i < s.len() && s[i] is Some ==> #[trigger] paint_all(s, batches, width)[i] is Some,
        forall|i: int, k: int|
            0 <= i < batches.len() && 0 <= k < batches[i].len() ==> paint_all(s, batches, width)[pixel_index(
                width,
                #[trigger] batches[i][k].0,
                batches[i][k].1,
            )] is Some,
    decreases batches.len(),
{
    if batches.len() > 0 {
        let front = batches.drop_last();
        assert forall|i: int| 0 <= i < front.len() implies batch_in_bounds(#[trigger] front[i], width, height) by {
            assert(front[i] == batches[i]);
        }
        lemma_paint_all_covers(s, front, width, height);
        let t = paint_all(s, front, width);
        assert(batch_in_bounds(batches[batches.len() - 1], width, height));
        lemma_painted_keeps(t, batches.last(), width, height);
        assert forall|i: int, k: int|
            0 <= i < batches.len() && 0 <= k < batches[i].len() implies paint_all(s, batches, width)[pixel_index(
                width,
                #[trigger] batches[i][k].0,
                batches[i][k].1,
            )] is Some by {
            if i < batches.len() - 1 {
                assert(batches[i] == front[i]);
                let (xk, yk, ck) = batches[i][k];
                assert(batch_in_bounds(batches[i], width, height));
                lemma_pixel_index_bound(width, height, xk, yk);
                assert(front[i][k].0 == xk);
            }
        }
    }
}

/// Whether no pixel occurs twice in `batches`, within a batch or across
/// two.
pub open spec fn distinct_pixels(batches: Seq<Seq<(u32, u32, Rgb)>>) -> bool {
    forall|i1: int, k1: int, i2: int, k2: int|
        0 <= i1 < batches.len() && 0 <= k1 < batches[i1].len() && 0 <= i2 < batches.len() && 0
            <= k2 < batches[i2].len() && (i1 != i2 || k1 != k2) ==> (#[trigger] batches[i1][k1].0
            != #[trigger] batches[i2][k2].0 || batches[i1][k1].1 != batches[i2][k2].1)
}

proof fn lemma_pixel_index_injective(width: u32, x1: u32, y1: u32, x2: u32, y2: u32)
    requires
        x1 < width,
        x2 < width,
        pixel_index(width, x1, y1) == pixel_index(width, x2, y2),
    ensures
        x1 == x2 && y1 == y2,
{
    let i = pixel_index(width, x1, y1);
    vstd::arithmetic::div_mod::lemma_fundamental_div_mod_converse(i, width as int, y1 as int, x1 as int);
    vstd::arithmetic::div_mod::lemma_fundamental_div_mod_converse(i, width as int, y2 as int, x2 as int);
}

proof fn lemma_painted_values(s: Seq<Option<Rgb>>, batch: Seq<(u32, u32, Rgb)>, width: u32, height: u32)
    requires
        s.len() == width * height,
        batch_in_bounds(batch, width, height),
        distinct_pixels(seq![batch]),
    ensures
        forall|k: int|
            0 <= k < batch.len() ==> painted(s, batch, width)[pixel_index(
                width,
                #[trigger] batch[k].0,
                batch[k].1,
            )] == Some(batch[k].2),
        forall|j: int|
            0 <= j < s.len() && (forall|k: int|
                0 <= k < batch.len() ==> pixel_index(width, #[trigger] batch[k].0, batch[k].1) != j)
                ==> #[trigger] painted(s, batch, width)[j] == s[j],
    decreases batch.len(),
{
    lemma_painted_keeps(s, batch, width, height);
    if batch.len() > 0 {
        let front = batch.drop_last();
        let last = batch.len() - 1;
        assert(distinct_pixels(seq![front])) by {
            assert forall|i1: int, k1: int, i2: int, k2: int|
                0 <= i1 < 1 && 0 <= k1 < seq![front][i1].len() && 0 <= i2 < 1 && 0 <= k2
                    < seq![front][i2].len() && (i1 != i2 || k1 != k2) implies (#[trigger] seq![
                front,
            ][i1][k1].0 != #[trigger] seq![front][i2][k2].0 || seq![front][i1][k1].1
                != seq![front][i2][k2].1) by {
                assert(seq![front][i1][k1] == seq![batch][0][k1]);
                assert(seq![front][i2][k2] == seq![batch][0][k2]);
            }
        }
        lemma_painted_values(s, front, width, height);
        lemma_painted_keeps(s, front, width, height);
        let t = painted(s, front, width);
        let (x, y, c) = batch[last];
        lemma_pixel_index_bound(width, height, x, y);
        assert(batch.last() == batch[last]);
        assert(painted(s, batch, width) == t.update(pixel_index(width, x, y), Some(c)));
        assert forall|k: int| 0 <= k < batch.len() implies painted(s, batch, width)[pixel_index(
            width,
            #[trigger] batch[k].0,
            batch[k].1,
        )] == Some(batch[k].2) by {
            if k < last {
                assert(batch[k] == front[k]);
                let (xk, yk, ck) = batch[k];
                assert(batch[k].0 < width && batch[k].1 < height);
                lemma_pixel_index_bound(width, height, xk, yk);
                assert(seq![batch][0][k] == batch[k]);
                assert(seq![batch][0][last] == batch[last]);
                assert(seq![batch][0][k].0 != seq![batch][0][last].0 || seq![batch][0][k].1
                    != seq![batch][0][last].1);
                assert(t[pixel_index(width, front[k].0, front[k].1)] == Some(front[k].2));
                if pixel_index(width, xk, yk) == pixel_index(width, x, y) {
                    lemma_pixel_index_injective(width, xk, yk, x, y);
                }
            }
        }
        assert forall|j: int|
            0 <= j < s.len() && (forall|k: int|
                0 <= k < batch.len() ==> pixel_index(width, #[trigger] batch[k].0, batch[k].1) != j)
                implies #[trigger] painted(s, batch, width)[j] == s[j] by {
            assert forall|k: int| 0 <= k < front.len() implies pixel_index(
                width,
                #[trigger] front[k].0,
                front[k].1,
            ) != j by {
                assert(front[k] == batch[k]);
            }
            assert(pixel_index(width, batch[last].0, batch[last].1) != j);
        }
    }
}

proof fn lemma_paint_all_values(
    s: Seq<Option<Rgb>>,
    batches: Seq<Seq<(u32, u32, Rgb)>>,
    width: u32,
    height: u32,
)
    requires
        s.len() == width * height,
        forall|i: int| 0 <= i < batches.len() ==> batch_in_bounds(#[trigger] batches[i], width, height),
        distinct_pixels(batches),
    ensures
        paint_all(s, batches, width).len() == s.len(),
        forall|i: int, k: int|
            0 <= i < batches.len() && 0 <= k < batches[i].len() ==> paint_all(s, batches, width)[pixel_index(
                width,
                #[trigger] batches[i][k].0,
                batches[i][k].1,
            )] == Some(batches[i][k].2),
        forall|j: int|
            0 <= j < s.len() && !delivered_at(batches, width, j) ==> #[trigger] paint_all(
                s,
                batches,
                width,
            )[j] == s[j],
    decreases batches.len(),
{
    lemma_paint_all_covers(s, batches, width, height);
    if batches.len() > 0 {
        let last = batches.len() - 1;
        let front = batches.drop_last();
        let b = batches[last];
        assert forall|i: int| 0 <= i < front.len() implies batch_in_bounds(#[trigger] front[i], width, height) by {
            assert(front[i] == batches[i]);
        }
        assert(distinct_pixels(front)) by {
            assert forall|i1: int, k1: int, i2: int, k2: int|
                0 <= i1 < front.len() && 0 <= k1 < front[i1].len() && 0 <= i2 < front.len() && 0 <= k2
                    < front[i2].len() && (i1 != i2 || k1 != k2) implies (#[trigger] front[i1][k1].0
                != #[trigger] front[i2][k2].0 || front[i1][k1].1 != front[i2][k2].1) by {
                assert(front[i1] == batches[i1]);
                assert(front[i2] == batches[i2]);
                assert(batches[i1][k1].0 != batches[i2][k2].0 || batches[i1][k1].1 != batches[i2][k2].1);
            }
        }
        assert(distinct_pixels(seq![b])) by {
            assert forall|i1: int, k1: int, i2: int, k2: int|
                0 <= i1 < 1 && 0 <= k1 < seq![b][i1].len() && 0 <= i2 < 1 && 0 <= k2 < seq![b][i2].len()
                    && (i1 != i2 || k1 != k2) implies (#[trigger] seq![b][i1][k1].0
                != #[trigger] seq![b][i2][k2].0 || seq![b][i1][k1].1 != seq![b][i2][k2].1) by {
                assert(batches[last][k1].0 != batches[last][k2].0 || batches[last][k1].1
                    != batches[last][k2].1);
            }
        }
        lemma_paint_all_values(s, front, width, height);
        let t = paint_all(s, front, width);
        assert(batch_in_bounds(b, width, height));
        lemma_painted_values(t, b, width, height);
        assert(batches.last() == b);
        assert forall|i: int, k: int|
            0 <= i < batches.len() && 0 <= k < batches[i].len() implies paint_all(s, batches, width)[pixel_index(
                width,
                #[trigger] batches[i][k].0,
                batches[i][k].1,
            )] == Some(batches[i][k].2) by {
            if i < last {
                let (xk, yk, ck) = batches[i][k];
                assert(batch_in_bounds(batches[i], width, height));
                assert(batches[i][k].0 < width && batches[i][k].1 < height);
                lemma_pixel_index_bound(width, height, xk, yk);
                assert(front[i] == batches[i]);
                assert(t[pixel_index(width, front[i][k].0, front[i][k].1)] == Some(front[i][k].2));
                assert forall|m: int| 0 <= m < b.len() implies pixel_index(width, #[trigger] b[m].0, b[m].1)
                    != pixel_index(width, xk, yk) by {
                    assert(batches[last][m].0 != batches[i][k].0 || batches[last][m].1 != batches[i][k].1);
                    assert(b[m].0 < width && b[m].1 < height);
                    if pixel_index(width, b[m].0, b[m].1) == pixel_index(width, xk, yk) {
                        lemma_pixel_index_injective(width, b[m].0, b[m].1, xk, yk);
                    }
                }
            } else {
                assert(batches[i] == b);
                assert(b[k].0 == batches[i][k].0);
            }
        }
        assert forall|j: int| 0 <= j < s.len() && !delivered_at(batches, width, j) implies #[trigger] paint_all(
            s,
            batches,
            width,
        )[j] == s[j] by {
            assert forall|m: int| 0 <= m < b.len() implies pixel_index(width, #[trigger] b[m].0, b[m].1)
                != j by {
                if pixel_index(width, b[m].0, b[m].1) == j {
                    assert(batches[last][m].0 == b[m].0);
                }
            }
            if delivered_at(front, width, j) {
                let (i, k) = choose|i: int, k: int|
                    0 <= i < front.len() && 0 <= k < front[i].len() && pixel_index(
                        width,
                        #[trigger] front[i][k].0,
                        front[i][k].1,
                    ) == j;
                assert(front[i] == batches[i]);
                assert(batches[i][k].0 == front[i][k].0);
            }
        }
    }
}

/// Whether some pixel of `batches` lands at position `j` of the buffer.
pub open spec fn delivered_at(batches: Seq<Seq<(u32, u32, Rgb)>>, width: u32, j: int) -> bool {
    exists|i: int, k: int|
        0 <= i < batches.len() && 0 <= k < batches[i].len() && pixel_index(
            width,
            #[trigger] batches[i][k].0,
            batches[i][k].1,
        ) == j
}

/// When no pixel arrives twice, the assembled image is fixed by the results
/// alone: each delivered pixel holds the colour delivered for it and every
/// other pixel is still missing, however the pixels were split into batches
/// and in whatever order the batches arrived.
pub proof fn lemma_image_determined_by_results(
    width: u32,
    height: u32,
    batches: Seq<Seq<(u32, u32, Rgb)>>,
)
    requires
        forall|i: int| 0 <= i < batches.len() ==> batch_in_bounds(#[trigger] batches[i], width, height),
        distinct_pixels(batches),
    ensures
        forall|i: int, k: int|
            0 <= i < batches.len() && 0 <= k < batches[i].len() ==> paint_all(
                blank(width, height),
                batches,
                width,
            )[pixel_index(width, #[trigger] batches[i][k].0, batches[i][k].1)] == Some(
                batches[i][k].2,
            ),
        forall|j: int|
            0 <= j < width * height && !delivered_at(batches, width, j) ==> (#[trigger] paint_all(
                blank(width, height),
                batches,
                width,
            )[j]) is None,
{
    lemma_paint_all_values(blank(width, height), batches, width, height);
}

/// The number of pixels in `batches`, counted as they arrive.
pub open spec fn pixels_received(batches: Seq<Seq<(u32, u32, Rgb)>>) -> nat
    decreases batches.len(),
{
    if batches.len() == 0 {
        0
    } else {
        pixels_received(batches.drop_last()) + batches.last().len()
    }
}

proof fn lemma_distinct_parts(batches: Seq<Seq<(u32, u32, Rgb)>>)
    requires
        batches.len() > 0,
        distinct_pixels(batches),
    ensures
        distinct_pixels(batches.drop_last()),
        distinct_pixels(seq![batches.last()]),
{
    let front = batches.drop_last();
    let b = batches.last();
    let last = batches.len() - 1;
    assert forall|i1: int, k1: int, i2: int, k2: int|
        0 <= i1 < front.len() && 0 <= k1 < front[i1].len() && 0 <= i2 < front.len() && 0 <= k2
            < front[i2].len() && (i1 != i2 || k1 != k2) implies (#[trigger] front[i1][k1].0
        != #[trigger] front[i2][k2].0 || front[i1][k1].1 != front[i2][k2].1) by {
        assert(front[i1] == batches[i1]);
        assert(front[i2] == batches[i2]);
        assert(batches[i1][k1].0 != batches[i2][k2].0 || batches[i1][k1].1 != batches[i2][k2].1);
    }
    assert forall|i1: int, k1: int, i2: int, k2: int|
        0 <= i1 < 1 && 0 <= k1 < seq![b][i1].len() && 0 <= i2 < 1 && 0 <= k2 < seq![b][i2].len()
            && (i1 != i2 || k1 != k2) implies (#[trigger] seq![b][i1][k1].0
        != #[trigger] seq![b][i2][k2].0 || seq![b][i1][k1].1 != seq![b][i2][k2].1) by {
        assert(batches[last][k1].0 != batches[last][k2].0 || batches[last][k1].1
            != batches[last][k2].1);
    }
}

proof fn lemma_painted_count(s: Seq<Option<Rgb>>, batch: Seq<(u32, u32, Rgb)>, width: u32, height: u32)
    requires
        s.len() == width * height,
        batch_in_bounds(batch, width, height),
        distinct_pixels(seq![batch]),
        forall|k: int|
            0 <= k < batch.len() ==> s[pixel_index(width, #[trigger] batch[k].0, batch[k].1)] is None,
    ensures
        count_missing(painted(s, batch, width)) + batch.len() == count_missing(s),
    decreases batch.len(),
{
    if batch.len() > 0 {
        let front = batch.drop_last();
        let last = batch.len() - 1;
        assert(seq![batch].drop_last() =~= Seq::<Seq<(u32, u32, Rgb)>>::empty());
        assert(distinct_pixels(seq![front])) by {
            assert forall|i1: int, k1: int, i2: int, k2: int|
                0 <= i1 < 1 && 0 <= k1 < seq![front][i1].len() && 0 <= i2 < 1 && 0 <= k2
                    < seq![front][i2].len() && (i1 != i2 || k1 != k2) implies (#[trigger] seq![
                front,
            ][i1][k1].0 != #[trigger] seq![front][i2][k2].0 || seq![front][i1][k1].1
                != seq![front][i2][k2].1) by {
                assert(seq![front][i1][k1] == seq![batch][0][k1]);
                assert(seq![front][i2][k2] == seq![batch][0][k2]);
            }
        }
        assert forall|k: int| 0 <= k < front.len() implies s[pixel_index(
            width,
            #[trigger] front[k].0,
            front[k].1,
        )] is None by {
            assert(front[k] == batch[k]);
        }
        lemma_painted_count(s, front, width, height);
        lemma_painted_values(s, front, width, height);
        lemma_painted_keeps(s, front, width, height);
        let t = painted(s, front, width);
        let (x, y, c) = batch[last];
        lemma_pixel_index_bound(width, height, x, y);
        let j = pixel_index(width, x, y);
        assert forall|k: int| 0 <= k < front.len() implies pixel_index(
            width,
            #[trigger] front[k].0,
            front[k].1,
        ) != j by {
            assert(front[k] == batch[k]);
            assert(seq![batch][0][k] == batch[k]);
            assert(seq![batch][0][last] == batch[last]);
            assert(seq![batch][0][k].0 != seq![batch][0][last].0 || seq![batch][0][k].1
                != seq![batch][0][last].1);
            assert(batch[k].0 < width && batch[k].1 < height);
            if pixel_index(width, front[k].0, front[k].1) == j {
                lemma_pixel_index_injective(width, front[k].0, front[k].1, x, y);
            }
        }
        assert(t[j] == s[j]);
        assert(batch.last() == batch[last]);
        assert(painted(s, batch, width) == t.update(j, Some(c)));
        lemma_count_missing_update(t, j, c);
    }
}

/// While no pixel arrives twice, the count of missing pixels goes down by
/// exactly the number of pixels received: after any run of batches,
/// `width * height` minus what arrived so far. The image is complete
/// exactly when the batches received hold `width * height` pixels in all,
/// so the aggregator stops right after the last batch.
pub proof fn lemma_remaining_counts_down(
    width: u32,
    height: u32,
    batches: Seq<Seq<(u32, u32, Rgb)>>,
)
    requires
        forall|i: int| 0 <= i < batches.len() ==> batch_in_bounds(#[trigger] batches[i], width, height),
        distinct_pixels(batches),
    ensures
        pixels_received(batches) <= width * height,
        count_missing(paint_all(blank(width, height), batches, width)) == width * height
            - pixels_received(batches),
        (forall|i: int|
            0 <= i < width * height ==> (#[trigger] paint_all(blank(width, height), batches, width)[i])
                is Some) <==> pixels_received(batches) == width * height,
    decreases batches.len(),
{
    let s = blank(width, height);
    lemma_count_missing_empty((width * height) as nat);
    lemma_paint_all_covers(s, batches, width, height);
    lemma_count_missing_bound(paint_all(s, batches, width));
    if batches.len() > 0 {
        let front = batches.drop_last();
        let b = batches.last();
        lemma_distinct_parts(batches);
        assert forall|i: int| 0 <= i < front.len() implies batch_in_bounds(#[trigger] front[i], width, height) by {
            assert(front[i] == batches[i]);
        }
        lemma_remaining_counts_down(width, height, front);
        lemma_paint_all_values(s, front, width, height);
        let t = paint_all(s, front, width);
        assert(batch_in_bounds(batches[batches.len() - 1], width, height));
        assert forall|k: int| 0 <= k < b.len() implies t[pixel_index(
            width,
            #[trigger] b[k].0,
            b[k].1,
        )] is None by {
            let last = batches.len() - 1;
            let j = pixel_index(width, b[k].0, b[k].1);
            lemma_pixel_index_bound(width, height, b[k].0, b[k].1);
            if delivered_at(front, width, j) {
                let (i, m) = choose|i: int, m: int|
                    0 <= i < front.len() && 0 <= m < front[i].len() && pixel_index(
                        width,
                        #[trigger] front[i][m].0,
                        front[i][m].1,
                    ) == j;
                assert(front[i] == batches[i]);
                assert(batches[i][m].0 != batches[last][k].0 || batches[i][m].1 != batches[last][k].1);
                assert(batch_in_bounds(batches[i], width, height));
                assert(batches[i][m].0 < width);
                lemma_pixel_index_injective(width, front[i][m].0, front[i][m].1, b[k].0, b[k].1);
            }
        }
        lemma_painted_count(t, b, width, height);
    } else {
        lemma_count_missing_bound(s);
    }
}

#[verifier::external_type_specification]
#[verifier::external_body]
pub struct ExDynamicImage(image::DynamicImage);

/// The width of an image, as `DynamicImage::width` reports it.
pub uninterp spec fn image_width(img: image::DynamicImage) -> u32;

/// The height of an image, as `DynamicImage::height` reports it.
pub uninterp spec fn image_height(img: image::DynamicImage) -> u32;

/// The raw bytes of an image, as `DynamicImage::as_bytes` returns them.
pub uninterp spec fn image_bytes(img: image::DynamicImage) -> Seq<u8>;

/// Relies on image::ImageBuffer::from_raw (wrapped as an RGBA
/// image::DynamicImage): an image over the bytes, given if and only if they
/// hold four bytes for each of `width * height` pixels. The image keeps the
/// buffer as it was handed over, with the given dimensions.
#[verifier::external_body]
fn rgba_image(width: u32, height: u32, bytes: Vec<u8>) -> (r: Option<image::DynamicImage>)
    ensures
        r is Some <==> 4 * width * height <= bytes@.len(),
        r matches Some(img) ==> image_bytes(img) == bytes@ && image_width(img) == width
            && image_height(img) == height,
{
    image::RgbaImage::from_raw(width, height, bytes).map(image::DynamicImage::ImageRgba8)
}

/// The output image as result batches arrive, in any order, from the
/// workers: which pixels have arrived, with what colour, and how many are
/// still awaited.
pub struct ImageAssembly {
    width: u32,
    height: u32,
    pixels: Vec<Option<Rgb>>,
    remaining: usize,
}

impl View for ImageAssembly {
    type V = Seq<Option<Rgb>>;

    closed spec fn view(&self) -> Seq<Option<Rgb>> {
        self.pixels@
    }
}

impl ImageAssembly {
    pub closed spec fn spec_width(&self) -> u32 {
        self.width
    }

    pub closed spec fn spec_height(&self) -> u32 {
        self.height
    }

    /// One entry per pixel, a count of those still missing, and room for the
    /// RGBA bytes of the whole image.
    pub closed spec fn wf(&self) -> bool {
        &&& self.pixels@.len() == self.width * self.height
        &&& 4 * self.width * self.height <= usize::MAX
        &&& self.remaining == count_missing(self.pixels@)
    }

    /// An image of `width` x `height` pixels that awaits every pixel.
    pub fn new(width: u32, height: u32) -> (img: ImageAssembly)
        requires
            4 * width * height <= usize::MAX,
        ensures
            img.wf(),
            img.spec_width() == width,
            img.spec_height() == height,
            img@ == blank(width, height),
    {
        assert(width * height <= 4 * width * height) by (nonlinear_arith);
        let n = width as usize * height as usize;
        let mut pixels: Vec<Option<Rgb>> = Vec::new();
        let mut i: usize = 0;
        while i < n
            invariant
                i <= n,
                n == width * height,
                pixels@ =~= Seq::new(i as nat, |k: int| None::<Rgb>),
            decreases n - i,
        {
            pixels.push(None);
            i = i + 1;
        }
        proof {
            lemma_count_missing_empty(n as nat);
        }
        ImageAssembly { width, height, pixels, remaining: n }
    }

    pub fn width(&self) -> (r: u32)
        ensures
            r == self.spec_width(),
    {
        self.width
    }

    pub fn height(&self) -> (r: u32)
        ensures
            r == self.spec_height(),
    {
        self.height
    }

    /// Number of pixels that have not arrived yet.
    pub fn remaining(&self) -> (r: usize)
        requires
            self.wf(),
        ensures
            r == count_missing(self@),
    {
        self.remaining
    }

    /// Whether every pixel has arrived.
    pub fn is_complete(&self) -> (r: bool)
        requires
            self.wf(),
        ensures
            r == (forall|i: int| 0 <= i < self@.len() ==> self@[i] is Some),
    {
        proof {
            lemma_count_missing_bound(self@);
        }
        self.remaining == 0
    }

    /// Writes each pixel of a result batch into the image.
    pub fn put_batch(&mut self, batch: &Vec<(u32, u32, Rgb)>)
        requires
            old(self).wf(),
            forall|k: int|
                0 <= k < batch@.len() ==> #[trigger] batch@[k].0 < old(self).spec_width()
                    && batch@[k].1 < old(self).spec_height(),
        ensures
            final(self).wf(),
            final(self).spec_width() == old(self).spec_width(),
            final(self).spec_height() == old(self).spec_height(),
            final(self)@ == painted(old(self)@, batch@, old(self).spec_width()),
    {
        let mut k: usize = 0;
        while k < batch.len()
            invariant
                self.wf(),
                self.width == old(self).width,
                self.height == old(self).height,
                k <= batch@.len(),
                forall|j: int|
                    0 <= j < batch@.len() ==> #[trigger] batch@[j].0 < self.width && batch@[j].1
                        < self.height,
                self.pixels@ == painted(old(self).pixels@, batch@.take(k as int), self.width),
            decreases batch@.len() - k,
        {
            let (x, y, c) = batch[k];
            proof {
                lemma_pixel_index_bound(self.width, self.height, x, y);
            }
            assert(y * self.width <= y * self.width + x);
            assert(self.width * self.height <= 4 * self.width * self.height) by (nonlinear_arith);
            let i = y as usize * self.width as usize + x as usize;
            proof {
                lemma_count_missing_update(self.pixels@, i as int, c);
                lemma_count_missing_bound(self.pixels@);
                assert(batch@.take(k + 1).drop_last() =~= batch@.take(k as int));
            }
            if self.pixels[i].is_none() {
                self.remaining = self.remaining - 1;
            }
            self.pixels.set(i, Some(c));
            k = k + 1;
        }
        assert(batch@.take(k as int) =~= batch@);
    }

    /// The image, with four RGBA bytes to a pixel, as the image crate holds
    /// it.
    pub fn to_image(&self) -> (img: Option<image::DynamicImage>)
        requires
            self.wf(),
        ensures
            img is Some,
            img matches Some(i) ==> image_width(i) == self.spec_width() && image_height(i)
                == self.spec_height() && image_bytes(i).len() == 4 * self@.len() && forall|k: int|
                0 <= k < self@.len() ==> #[trigger] image_bytes(i).subrange(4 * k, 4 * k + 4)
                    == rgba_of(self@[k]),
    {
        let bytes = self.to_rgba_bytes();
        proof {
            assert(4 * self.width * self.height == 4 * self@.len()) by (nonlinear_arith)
                requires
                    self@.len() == self.width * self.height,
            ;
        }
        rgba_image(self.width, self.height, bytes)
    }

    /// The image as RGBA bytes, row by row, four to a pixel.
    pub fn to_rgba_bytes(&self) -> (bytes: Vec<u8>)
        requires
            self.wf(),
        ensures
            bytes@.len() == 4 * self@.len(),
            forall|i: int|
                0 <= i < self@.len() ==> #[trigger] bytes@.subrange(4 * i, 4 * i + 4) == rgba_of(
                    self@[i],
                ),
    {
        let mut bytes: Vec<u8> = Vec::new();
        let mut i: usize = 0;
        while i < self.pixels.len()
            invariant
                self.wf(),
                i <= self@.len(),
                bytes@.len() == 4 * i,
                forall|j: int|
                    0 <= j < i ==> #[trigger] bytes@.subrange(4 * j, 4 * j + 4) == rgba_of(
                        self@[j],
                    ),
            decreases self@.len() - i,
        {
            let old_bytes = Ghost(bytes@);
            match self.pixels[i] {
                Some(c) => {
                    bytes.push(c.r);
                    bytes.push(c.g);
                    bytes.push(c.b);
                },
                None => {
                    bytes.push(0);
                    bytes.push(0);
                    bytes.push(0);
                },
            }
            bytes.push(255);
            proof {
                assert forall|j: int| 0 <= j < i + 1 implies #[trigger] bytes@.subrange(
                    4 * j,
                    4 * j + 4,
                ) == rgba_of(self@[j]) by {
                    if j < i {
                        assert(bytes@.subrange(4 * j, 4 * j + 4) =~= old_bytes@.subrange(
                            4 * j,
                            4 * j + 4,
                        ));
                    } else {
                        assert(bytes@.subrange(4 * j, 4 * j + 4) =~= rgba_of(self@[j]));
                    }
                }
            }
            i = i + 1;
        }
        bytes
    }
}

} // verus!
