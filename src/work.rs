use vstd::arithmetic::div_mod::lemma_fundamental_div_mod_converse;
use vstd::prelude::*;

verus! {

/// Number of worker threads that drain the pixel queue.
pub const THREAD_COUNT: usize = 4;

/// Number of pixels a worker claims at a time.
pub const BATCH_SIZE: usize = 512;

/// The pixel at position `i` of the queue: rows top to bottom, each row left
/// to right.
pub open spec fn pixel_at(width: u32, i: int) -> (u32, u32) {
    ((i % width as int) as u32, (i / width as int) as u32)
}

/// Every pixel of a `width` x `height` image, row by row.
pub open spec fn pixel_order(width: u32, height: u32) -> Seq<(u32, u32)> {
    Seq::new((width * height) as nat, |i: int| pixel_at(width, i))
}

proof fn lemma_pixel_at(width: u32, x: u32, y: u32)
    requires
        x < width,
    ensures
        pixel_at(width, y * width + x) == (x, y),
{
    lemma_fundamental_div_mod_converse(y * width + x, width as int, y as int, x as int);
}

/// Lists the pixels of a `width` x `height` image in row order.
pub fn get_pixels(width: u32, height: u32) -> (pixels: Vec<(u32, u32)>)
    requires
        width * height <= usize::MAX,
    ensures
        pixels@ == pixel_order(width, height),
{
    let mut pixels: Vec<(u32, u32)> = Vec::new();
    let mut y: u32 = 0;
    while y < height
        invariant
            y <= height,
            pixels@.len() == y * width,
            forall|i: int| 0 <= i < pixels@.len() ==> pixels@[i] == pixel_at(width, i),
        decreases height - y,
    {
        let mut x: u32 = 0;
        while x < width
            invariant
                y < height,
                x <= width,
                pixels@.len() == y * width + x,
                forall|i: int| 0 <= i < pixels@.len() ==> pixels@[i] == pixel_at(width, i),
            decreases width - x,
        {
            proof {
                lemma_pixel_at(width, x, y);
            }
            pixels.push((x, y));
            x = x + 1;
        }
        proof {
            assert((y + 1) * width == y * width + width) by (nonlinear_arith);
        }
        y = y + 1;
    }
    assert(height * width == width * height) by (nonlinear_arith);
    assert(pixels@ =~= pixel_order(width, height));
    pixels
}

/// Where the batch taken from a queue of `len` pixels begins.
pub open spec fn batch_start(len: nat, batch_size: nat) -> nat {
    if len < batch_size {
        0
    } else {
        (len - batch_size) as nat
    }
}

/// Removes up to `batch_size` pixels from the tail of the queue and returns
/// them; a queue shorter than that is emptied.
pub fn get_pixel_batch(pixels: &mut Vec<(u32, u32)>, batch_size: usize) -> (batch: Vec<(u32, u32)>)
    ensures
        final(pixels)@ == old(pixels)@.take(
            batch_start(old(pixels)@.len(), batch_size as nat) as int,
        ),
        batch@ == old(pixels)@.skip(batch_start(old(pixels)@.len(), batch_size as nat) as int),
{
    if pixels.len() < batch_size {
        pixels.split_off(0)
    } else {
        let index = pixels.len() - batch_size;
        pixels.split_off(index)
    }
}

/// The batches that workers take, in order, from a queue `q` until it is
/// empty, each taken as `get_pixel_batch` takes it.
pub open spec fn drain<T>(q: Seq<T>, batch_size: nat) -> Seq<Seq<T>>
    decreases q.len(),
{
    if q.len() == 0 || batch_size == 0 {
        seq![]
    } else {
        let start = batch_start(q.len(), batch_size);
        seq![q.skip(start as int)] + drain(q.take(start as int), batch_size)
    }
}

/// The sum of the sizes of `batches`.
pub open spec fn total_size<T>(batches: Seq<Seq<T>>) -> nat
    decreases batches.len(),
{
    if batches.len() == 0 {
        0
    } else {
        batches[0].len() + total_size(batches.skip(1))
    }
}

/// The batches put back together in queue order: the last batch taken held
/// the front of the queue.
pub open spec fn rejoin<T>(batches: Seq<Seq<T>>) -> Seq<T>
    decreases batches.len(),
{
    if batches.len() == 0 {
        seq![]
    } else {
        rejoin(batches.skip(1)) + batches[0]
    }
}

/// Draining a queue in batches of a positive size hands out every entry
/// exactly once: put back together, the batches are the queue, their sizes
/// add up to its length, and none is empty or larger than the batch size.
pub proof fn lemma_drain_rejoins<T>(q: Seq<T>, batch_size: nat)
    requires
        batch_size > 0,
    ensures
        rejoin(drain(q, batch_size)) == q,
        total_size(drain(q, batch_size)) == q.len(),
        forall|i: int|
            0 <= i < drain(q, batch_size).len() ==> 0 < #[trigger] drain(q, batch_size)[i].len()
                <= batch_size,
    decreases q.len(),
{
    if q.len() > 0 {
        let start = batch_start(q.len(), batch_size);
        let rest = q.take(start as int);
        lemma_drain_rejoins(rest, batch_size);
        let bs = drain(q, batch_size);
        assert(bs.skip(1) =~= drain(rest, batch_size));
        assert(rest + q.skip(start as int) =~= q);
        assert forall|i: int| 0 <= i < bs.len() implies 0 < #[trigger] bs[i].len() <= batch_size by {
            if i > 0 {
                assert(bs[i] == drain(rest, batch_size)[i - 1]);
            }
        }
    } else {
        assert(rejoin(drain(q, batch_size)) =~= q);
    }
}

/// Every pixel of the image appears in the row order exactly once, and
/// nothing else does.
pub proof fn lemma_pixel_order(width: u32, height: u32)
    ensures
        pixel_order(width, height).no_duplicates(),
        forall|x: u32, y: u32|
            pixel_order(width, height).contains((x, y)) <==> x < width && y < height,
{
    let s = pixel_order(width, height);
    assert forall|i: int, j: int| 0 <= i < s.len() && 0 <= j < s.len() && i != j implies s[i]
        != s[j] by {
        let w = width as int;
        assert(0 <= i < w * height as int);
        assert(0 <= j < w * height as int);
        assert(w > 0) by (nonlinear_arith)
            requires
                0 <= i < w * height as int,
                w >= 0,
                height >= 0,
        ;
        assert(0 <= i / w < height) by (nonlinear_arith)
            requires
                0 <= i < w * height as int,
                w > 0,
        ;
        assert(0 <= j / w < height) by (nonlinear_arith)
            requires
                0 <= j < w * height as int,
                w > 0,
        ;
        vstd::arithmetic::div_mod::lemma_fundamental_div_mod(i, w);
        vstd::arithmetic::div_mod::lemma_fundamental_div_mod(j, w);
        assert(0 <= i % w < w);
        assert(0 <= j % w < w);
    }
    assert forall|x: u32, y: u32| s.contains((x, y)) <==> x < width && y < height by {
        if x < width && y < height {
            assert(y * width + x < width * height) by (nonlinear_arith)
                requires
                    x < width,
                    y < height,
            ;
            lemma_pixel_at(width, x, y);
            assert(s[y * width + x] == (x, y));
        }
        if s.contains((x, y)) {
            let i = choose|i: int| 0 <= i < s.len() && s[i] == (x, y);
            let w = width as int;
            assert(w > 0) by (nonlinear_arith)
                requires
                    0 <= i < w * height as int,
                    w >= 0,
                    height >= 0,
            ;
            assert(0 <= i / w < height) by (nonlinear_arith)
                requires
                    0 <= i < w * height as int,
                    w > 0,
            ;
            vstd::arithmetic::div_mod::lemma_fundamental_div_mod(i, w);
            assert(0 <= i % w < w);
        }
    }
}

/// Workers that drain the pixels of a `width` x `height` image in batches of
/// a positive size hand the aggregator `width * height` pixels in all, each
/// pixel of the image once and nothing else.
pub proof fn lemma_every_pixel_delivered_once(width: u32, height: u32, batch_size: nat)
    requires
        batch_size > 0,
    ensures
        total_size(drain(pixel_order(width, height), batch_size)) == width * height,
        rejoin(drain(pixel_order(width, height), batch_size)).no_duplicates(),
        forall|x: u32, y: u32|
            rejoin(drain(pixel_order(width, height), batch_size)).contains((x, y)) <==> x < width
                && y < height,
{
    lemma_drain_rejoins(pixel_order(width, height), batch_size);
    lemma_pixel_order(width, height);
}

} // verus!
