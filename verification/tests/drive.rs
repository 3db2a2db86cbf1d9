use chunked_render::BoundingBox;
use chunked_render::Command;
use chunked_render::DisplayList;
use chunked_render::DisplayListError;
use chunked_render::RecordingRenderer;
use chunked_render::RenderEvent;
use chunked_render::Rgb;

/// Group a trace into per-tile segments: each begins with a `SetChunk` and
/// holds everything up to the next one.
fn segments(events: &[RenderEvent]) -> Vec<(u32, u32, Vec<RenderEvent>)> {
    let mut out: Vec<(u32, u32, Vec<RenderEvent>)> = Vec::new();
    for e in events {
        match e {
            RenderEvent::SetChunk(x, y) => out.push((*x, *y, Vec::new())),
            other => out.last_mut().expect("event before any SetChunk").2.push(*other),
        }
    }
    out
}

fn boxes_intersect(a: &BoundingBox, b: &BoundingBox) -> bool {
    a.x1 <= b.x2 && a.x2 >= b.x1 && a.y1 <= b.y2 && a.y2 >= b.y1
}

fn tile_at(x: u32, y: u32, w: u32, h: u32, cw: u32, ch: u32) -> BoundingBox {
    BoundingBox::new(x, y, (x + cw).min(w - 1), (y + ch).min(h - 1))
}

#[test]
fn second_drive_is_quiet() {
    // idempotence: a second drive with no intervening writes issues zero
    // clear/draw/flush calls
    let mut dl = DisplayList::<3>::new();
    let mut r = RecordingRenderer::new(64, 48, 16, 16);
    let rect = Command::new_rect(BoundingBox::new(4, 4, 20, 20), Rgb::new(1, 2, 3));
    dl.set(0, rect).unwrap();
    dl.draw(&mut r).unwrap();
    let first_len = r.recorded().len();
    dl.draw(&mut r).unwrap();
    for e in &r.recorded()[first_len..] {
        assert!(matches!(e, RenderEvent::SetChunk(_, _)));
    }
}

#[test]
fn tile_coverage_counts_and_alignment() {
    // a 20 x 13 canvas in 8 x 8 chunks has ceil(20/8) * ceil(13/8) = 6 tiles
    let mut dl = DisplayList::<1>::new();
    let mut r = RecordingRenderer::new(20, 13, 8, 8);
    dl.draw(&mut r).unwrap();
    let moves: Vec<(u32, u32)> = r
        .recorded()
        .iter()
        .filter_map(|e| match e {
            RenderEvent::SetChunk(x, y) => Some((*x, *y)),
            _ => None,
        })
        .collect();
    assert_eq!(moves.len(), 6);
    for (x, y) in &moves {
        assert_eq!(x % 8, 0);
        assert_eq!(y % 8, 0);
        assert!(*x < 20 && *y < 13);
    }
    // the fresh list has no generation drift at all, so not one tile was
    // cleared, drawn or flushed
    assert_eq!(r.recorded().len(), 6);
}

#[test]
fn covering_layer_occludes_lower_layers() {
    // one 16 x 16 tile; layer 1 fully covers it, layer 0 lies under it
    let mut dl = DisplayList::<2>::new();
    let mut r = RecordingRenderer::new(16, 16, 16, 16);
    dl.set(0, Command::new_rect(BoundingBox::new(2, 2, 6, 6), Rgb::new(1, 0, 0))).unwrap();
    dl.set(1, Command::new_rect(BoundingBox::new(0, 0, 16, 16), Rgb::new(0, 1, 0))).unwrap();
    let top = dl.get(1).unwrap();
    dl.draw(&mut r).unwrap();
    let segs = segments(r.recorded());
    assert_eq!(segs.len(), 1);
    let draws: Vec<Command> = segs[0]
        .2
        .iter()
        .filter_map(|e| match e {
            RenderEvent::Draw(c) => Some(*c),
            _ => None,
        })
        .collect();
    // only the covering layer is painted; the occluded layer 0 never is
    assert_eq!(draws, vec![top]);
}

#[test]
fn untouched_tiles_receive_nothing() {
    // damage minimality: only slot 0 changes, and its old and new bounds
    // are disjoint from the second tile, so that tile gets only its clip
    // move
    let mut dl = DisplayList::<1>::new();
    let mut r = RecordingRenderer::new(32, 16, 16, 16);
    dl.draw(&mut r).unwrap();  // settle the fresh list
    let settled = r.recorded().len();
    dl.set(0, Command::new_rect(BoundingBox::new(0, 0, 8, 8), Rgb::new(3, 3, 3))).unwrap();
    dl.draw(&mut r).unwrap();
    let segs = segments(&r.recorded()[settled..]);
    assert_eq!(segs.len(), 2);
    let (x, y, rest) = &segs[1];
    assert_eq!((*x, *y), (16, 0));
    assert!(rest.is_empty());
    // while the tile the change touches was repainted
    assert!(!segs[0].2.is_empty());
}

#[test]
fn scenario_three_rectangles() {
    // capacity-3 list on a 320 x 240 canvas in 16 x 16 chunks
    let mut dl = DisplayList::<3>::new();
    let mut r = RecordingRenderer::new(320, 240, 16, 16);
    let rects = [
        BoundingBox::new(176, 16, 192, 176),
        BoundingBox::new(64, 32, 160, 128),
        BoundingBox::new(208, 16, 224, 176),
    ];
    dl.set(0, Command::new_rect(rects[0], Rgb::new(0, 64, 128))).unwrap();
    dl.set(2, Command::new_rect(rects[2], Rgb::new(0, 128, 64))).unwrap();
    dl.set(1, Command::new_rect(rects[1], Rgb::new(64, 64, 64))).unwrap();
    dl.draw(&mut r).unwrap();
    for (x, y, rest) in segments(r.recorded()) {
        let tile = tile_at(x, y, 320, 240, 16, 16);
        let touches_rect = rects.iter().any(|b| boxes_intersect(b, &tile));
        // the origin tile is repainted too on this very first frame: each
        // slot's committed command is still the null command, whose zero
        // box overlaps the tile containing pixel (0, 0)
        let origin = x == 0 && y == 0;
        if touches_rect || origin {
            assert!(
                matches!(rest.first(), Some(RenderEvent::Clear)),
                "tile ({x},{y}) should have been repainted"
            );
            assert!(matches!(rest.last(), Some(RenderEvent::Flush)));
        } else {
            assert!(rest.is_empty(), "tile ({x},{y}) should have been left alone");
        }
    }
}

#[test]
fn scenario_sliding_rectangle() {
    // translate slot 1 by one pixel per frame: each frame repaints exactly
    // the tiles touched by slot 1's old or new footprint, and the
    // generation counter advances by one per successful frame
    let mut dl = DisplayList::<3>::new();
    let mut r = RecordingRenderer::new(320, 240, 16, 16);
    let mut bounds = BoundingBox::new(64, 32, 160, 128);
    dl.set(0, Command::new_rect(BoundingBox::new(176, 16, 192, 176), Rgb::new(0, 64, 128)))
        .unwrap();
    dl.set(2, Command::new_rect(BoundingBox::new(208, 16, 224, 176), Rgb::new(0, 128, 64)))
        .unwrap();
    dl.set(1, Command::new_rect(bounds, Rgb::new(64, 64, 64))).unwrap();
    dl.draw(&mut r).unwrap();

    let mut rgb = Rgb::new(64, 64, 64);
    for _ in 0..128 {
        let old_bounds = bounds;
        bounds.x1 += 1;
        bounds.x2 += 1;
        rgb.r += 1;
        dl.update(1, Command::new_rect(bounds, rgb)).unwrap();
        let generation_before = dl.generation();
        let before = r.recorded().len();
        dl.draw(&mut r).unwrap();
        assert_eq!(dl.generation(), generation_before.wrapping_add(1));
        for (x, y, rest) in segments(&r.recorded()[before..]) {
            let tile = tile_at(x, y, 320, 240, 16, 16);
            let touched =
                boxes_intersect(&old_bounds, &tile) || boxes_intersect(&bounds, &tile);
            // the damage test is independent of occlusion: every touched
            // tile is repainted, even where the unchanged slot 2 covers it
            if touched {
                assert!(matches!(rest.first(), Some(RenderEvent::Clear)));
                assert!(matches!(rest.last(), Some(RenderEvent::Flush)));
            } else {
                assert!(rest.is_empty());
            }
        }
    }
}

#[test]
fn generation_wraps_around() {
    let mut dl = DisplayList::<1>::new();
    let mut r = RecordingRenderer::new(8, 8, 8, 8);
    assert_eq!(dl.generation(), 1);
    for _ in 0..255 {
        dl.draw(&mut r).unwrap();
    }
    assert_eq!(dl.generation(), 0);
    dl.draw(&mut r).unwrap();
    assert_eq!(dl.generation(), 1);
}

fn test2() -> Result<(), DisplayListError> {
    let mut renderer = RecordingRenderer::new(320, 240, 16, 16);

    let mut commands = DisplayList::<3>::new();

    let bounds = BoundingBox::new(176, 16, 192, 176);
    let rgb = Rgb::new(0, 64, 128);

    let rect = Command::new_rect(bounds, rgb);

    commands.set(0, rect)?;

    let bounds = BoundingBox::new(208, 16, 224, 176);
    let rgb = Rgb::new(0, 128, 64);

    let rect = Command::new_rect(bounds, rgb);

    commands.set(2, rect)?;

    let mut bounds = BoundingBox::new(64, 32, 160, 128);
    let mut rgb = Rgb::new(64, 64, 64);

    let rect = Command::new_rect(bounds.clone(), rgb.clone());

    commands.set(1, rect)?;

    commands.draw(&mut renderer)?;

    for _ in 0..128 {
        bounds.x1 += 1;
        bounds.x2 += 1;
        rgb.r += 1;

        let rect = Command::new_rect(bounds.clone(), rgb.clone());

        commands.update(1, rect)?;

        commands.draw(&mut renderer)?;
    }

    Ok(())
}

#[test]
fn it_works2() {
    let result = test2();

    assert_eq!(result, Ok(()));
}
