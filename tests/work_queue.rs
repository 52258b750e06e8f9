use pathtracer::{get_pixel_batch, get_pixels, ImageAssembly, Rgb, BATCH_SIZE, THREAD_COUNT};

#[test]
fn pixels_listed_row_by_row() {
    let pixels = get_pixels(3, 2);
    assert_eq!(pixels, vec![(0, 0), (1, 0), (2, 0), (0, 1), (1, 1), (2, 1)]);
}

#[test]
fn empty_image_has_no_pixels() {
    assert!(get_pixels(0, 5).is_empty());
    assert!(get_pixels(5, 0).is_empty());
}

#[test]
fn batch_taken_from_the_tail() {
    let mut pixels = get_pixels(3, 2);
    let batch = get_pixel_batch(&mut pixels, 4);
    assert_eq!(batch, vec![(2, 0), (0, 1), (1, 1), (2, 1)]);
    assert_eq!(pixels, vec![(0, 0), (1, 0)]);
}

#[test]
fn short_queue_is_emptied() {
    let mut pixels = get_pixels(2, 1);
    let batch = get_pixel_batch(&mut pixels, 5);
    assert_eq!(batch, vec![(0, 0), (1, 0)]);
    assert!(pixels.is_empty());
    assert!(get_pixel_batch(&mut pixels, 5).is_empty());
}

#[test]
fn exact_batch_empties_queue() {
    let mut pixels = get_pixels(2, 2);
    let batch = get_pixel_batch(&mut pixels, 4);
    assert_eq!(batch.len(), 4);
    assert!(pixels.is_empty());
}

#[test]
fn draining_delivers_every_pixel_once() {
    let (w, h) = (37u32, 29u32);
    let mut pixels = get_pixels(w, h);
    let mut seen = vec![false; (w * h) as usize];
    let mut total = 0usize;
    loop {
        let batch = get_pixel_batch(&mut pixels, 100);
        if batch.is_empty() {
            break;
        }
        assert!(batch.len() <= 100);
        total += batch.len();
        for (x, y) in batch {
            assert!(x < w && y < h);
            let i = (y * w + x) as usize;
            assert!(!seen[i]);
            seen[i] = true;
        }
    }
    assert_eq!(total, (w * h) as usize);
    assert!(seen.iter().all(|s| *s));
}

#[test]
fn draining_with_default_batch_size() {
    let mut pixels = get_pixels(40, 30);
    let mut sizes = Vec::new();
    loop {
        let batch = get_pixel_batch(&mut pixels, BATCH_SIZE);
        if batch.is_empty() {
            break;
        }
        sizes.push(batch.len());
    }
    assert_eq!(sizes, vec![512, 512, 176]);
    assert_eq!(THREAD_COUNT, 4);
}

#[test]
fn assembly_tracks_remaining_pixels() {
    let mut img = ImageAssembly::new(2, 2);
    assert_eq!(img.width(), 2);
    assert_eq!(img.height(), 2);
    assert_eq!(img.remaining(), 4);
    assert!(!img.is_complete());
    let red = Rgb { r: 255, g: 0, b: 0 };
    let blue = Rgb { r: 0, g: 0, b: 255 };
    img.put_batch(&vec![(1, 1, red), (0, 1, blue)]);
    assert_eq!(img.remaining(), 2);
    img.put_batch(&vec![(1, 1, blue)]);
    assert_eq!(img.remaining(), 2);
    img.put_batch(&vec![(0, 0, red), (1, 0, red)]);
    assert_eq!(img.remaining(), 0);
    assert!(img.is_complete());
    assert_eq!(
        img.to_rgba_bytes(),
        vec![255, 0, 0, 255, 255, 0, 0, 255, 0, 0, 255, 255, 0, 0, 255, 255]
    );
}

#[test]
fn missing_pixels_are_opaque_black() {
    let mut img = ImageAssembly::new(2, 1);
    img.put_batch(&vec![(1, 0, Rgb { r: 10, g: 20, b: 30 })]);
    assert_eq!(img.remaining(), 1);
    assert_eq!(img.to_rgba_bytes(), vec![0, 0, 0, 255, 10, 20, 30, 255]);
}

#[test]
fn assembly_completes_after_draining() {
    let (w, h) = (7u32, 5u32);
    let mut pixels = get_pixels(w, h);
    let mut img = ImageAssembly::new(w, h);
    loop {
        let batch = get_pixel_batch(&mut pixels, 4);
        if batch.is_empty() {
            break;
        }
        let results: Vec<(u32, u32, Rgb)> =
            batch.into_iter().map(|(x, y)| (x, y, Rgb { r: x as u8, g: y as u8, b: 0 })).collect();
        img.put_batch(&results);
    }
    assert!(img.is_complete());
    let bytes = img.to_rgba_bytes();
    assert_eq!(bytes.len(), (4 * w * h) as usize);
    assert_eq!(&bytes[4 * (2 * 7 + 3)..4 * (2 * 7 + 3) + 4], &[3, 2, 0, 255]);
}

#[test]
fn assembled_image_holds_the_pixels() {
    let mut img = ImageAssembly::new(2, 1);
    img.put_batch(&vec![(0, 0, Rgb { r: 1, g: 2, b: 3 }), (1, 0, Rgb { r: 4, g: 5, b: 6 })]);
    let image = img.to_image().unwrap();
    assert_eq!((image.width(), image.height()), (2, 1));
    assert_eq!(image.as_bytes(), &[1, 2, 3, 255, 4, 5, 6, 255]);
    assert_eq!(image.to_rgba8().into_raw(), vec![1, 2, 3, 255, 4, 5, 6, 255]);
}

#[test]
fn arrival_order_does_not_change_the_image() {
    let (w, h) = (5u32, 4u32);
    let colour = |x: u32, y: u32| Rgb { r: (x * 40) as u8, g: (y * 60) as u8, b: 7 };
    let mut pixels = get_pixels(w, h);
    let mut batches = Vec::new();
    loop {
        let batch = get_pixel_batch(&mut pixels, 3);
        if batch.is_empty() {
            break;
        }
        batches.push(batch.into_iter().map(|(x, y)| (x, y, colour(x, y))).collect::<Vec<_>>());
    }
    let mut forward = ImageAssembly::new(w, h);
    for batch in batches.iter() {
        forward.put_batch(batch);
    }
    let mut backward = ImageAssembly::new(w, h);
    for batch in batches.iter().rev() {
        backward.put_batch(batch);
    }
    let mut single = ImageAssembly::new(w, h);
    single.put_batch(&batches.concat());
    assert!(forward.is_complete() && backward.is_complete() && single.is_complete());
    assert_eq!(forward.to_rgba_bytes(), backward.to_rgba_bytes());
    assert_eq!(forward.to_rgba_bytes(), single.to_rgba_bytes());
    let bytes = forward.to_rgba_bytes();
    assert_eq!(&bytes[4 * (3 * 5 + 2)..4 * (3 * 5 + 2) + 4], &[80, 180, 7, 255]);
}
