use chunked_render::BoundingBox;
use chunked_render::ChannelCommand;
use chunked_render::ChannelItem;
use chunked_render::CollectingChannel;
use chunked_render::Command;
use chunked_render::DisplayList;
use chunked_render::Renderer;
use chunked_render::Rgb;
use chunked_render::Sh1107Render;

/// The page rows of pixel data sent since `from`, in order.
fn data_rows(items: &[ChannelItem], from: usize) -> Vec<Vec<u8>> {
    items[from..]
        .iter()
        .filter_map(|it| it.data().cloned())
        .collect()
}

#[test]
fn rect_sets_exactly_the_packed_bits() {
    // a 16 x 16 chunk is 32 bytes: 16 columns times two 8-pixel page rows
    let mut r = Sh1107Render::new(CollectingChannel::new(), 16, 16, 16, 16, 32);
    r.set_chunk(0, 0).unwrap();
    r.clear().unwrap();
    r.draw(&Command::new_rect(BoundingBox::new(2, 3, 10, 11), Rgb::new(5, 0, 0))).unwrap();
    r.flush().unwrap();
    let rows = data_rows(r.channel().sent(), 0);
    assert_eq!(rows.len(), 2);
    for x in 0u32..16 {
        let inside = (2..10).contains(&x);
        // rows 3..8 of the first page row: bits 3..=7
        let expected0 = if inside { 0b1111_1000u8 } else { 0 };
        // rows 8..11 sit in the second page row: bits 0..=2
        let expected1 = if inside { 0b0000_0111u8 } else { 0 };
        assert_eq!(rows[0][x as usize], expected0, "page row 0, column {x}");
        assert_eq!(rows[1][x as usize], expected1, "page row 1, column {x}");
    }

    // drawing the same rectangle in black clears that same pattern
    let sent_so_far = r.channel().sent().len();
    r.draw(&Command::new_rect(BoundingBox::new(2, 3, 10, 11), Rgb::new(0, 0, 0))).unwrap();
    r.flush().unwrap();
    let rows = data_rows(r.channel().sent(), sent_so_far);
    assert_eq!(rows.len(), 2);
    for x in 0..16 {
        assert_eq!(rows[0][x], 0);
        assert_eq!(rows[1][x], 0);
    }
}

#[test]
fn draw_is_clipped_to_the_chunk() {
    // the rectangle spills past the clip on every side; only the clip's
    // pixels may change
    let mut r = Sh1107Render::new(CollectingChannel::new(), 64, 64, 16, 16, 32);
    r.set_chunk(16, 16).unwrap();
    r.clear().unwrap();
    r.draw(&Command::new_rect(BoundingBox::new(0, 0, 64, 64), Rgb::new(1, 1, 1))).unwrap();
    r.flush().unwrap();
    let rows = data_rows(r.channel().sent(), 0);
    assert_eq!(rows.len(), 2);
    for x in 0..16 {
        assert_eq!(rows[0][x], 0xFF);
        assert_eq!(rows[1][x], 0xFF);
    }
}

#[test]
fn flush_addresses_each_page_row_before_its_data() {
    let mut r = Sh1107Render::new(CollectingChannel::new(), 48, 16, 16, 16, 32);
    r.set_chunk(32, 0).unwrap();
    r.clear().unwrap();
    r.flush().unwrap();
    let items = r.channel().sent();
    // two page rows, each: page address, column low, column high, data
    assert_eq!(items.len(), 8);
    for row in 0u8..2 {
        let base = (row as usize) * 4;
        assert!(items[base].is_command(ChannelCommand::PageAddress(row)));
        // the clip starts at pixel column 32 = 0x20
        assert!(items[base + 1].is_command(ChannelCommand::ColumnAddressLow(0x0)));
        assert!(items[base + 2].is_command(ChannelCommand::ColumnAddressHigh(0x2)));
        assert_eq!(items[base + 3].data().unwrap().len(), 16);
    }
}

#[test]
fn init_configures_then_blanks() {
    let mut r = Sh1107Render::new(CollectingChannel::new(), 32, 16, 16, 16, 32);
    r.init((32, 16)).unwrap();
    let items = r.channel().sent();
    // the configuration sequence comes first, display-on strictly last
    assert!(items[0].is_command(ChannelCommand::DisplayOn(false)));
    assert!(items[1].is_command(ChannelCommand::DisplayClockDiv(8, 0)));
    assert!(items[2].is_command(ChannelCommand::Multiplex(15)));
    assert!(items[12].is_command(ChannelCommand::DisplayOn(true)));
    for it in &items[..12] {
        assert!(!it.is_command(ChannelCommand::DisplayOn(true)));
    }
    // then every chunk of the 32 x 16 canvas is blanked once: two tiles,
    // each flushing two page rows of four transfers each
    assert_eq!(items.len(), 13 + 2 * 2 * 4);
    for it in &items[13..] {
        if let Some(data) = it.data() {
            assert!(data.iter().all(|b| *b == 0));
        }
    }
}

#[test]
fn display_list_drives_chunked_renderer() {
    // the damage engine and the bit-packed renderer together: one lit
    // rectangle in the left tile leaves the right tile's traffic absent
    let mut dl = DisplayList::<1>::new();
    let mut r = Sh1107Render::new(CollectingChannel::new(), 32, 16, 16, 16, 32);
    dl.set(0, Command::new_rect(BoundingBox::new(0, 0, 8, 8), Rgb::new(0, 0, 9))).unwrap();
    dl.draw(&mut r).unwrap();
    let items = r.channel().sent();
    // only the tile at (0, 0) was flushed: two page rows
    assert_eq!(items.len(), 8);
    let rows = data_rows(items, 0);
    // columns 0..8, rows 0..8: low page row bits 0..=7, high page row clear
    for x in 0..16 {
        let expected = if x < 8 { 0xFFu8 } else { 0 };
        assert_eq!(rows[0][x], expected);
        assert_eq!(rows[1][x], 0);
    }
}

#[test]
fn misaligned_clip_offsets_are_rejected() {
    let mut r = Sh1107Render::new(CollectingChannel::new(), 64, 64, 16, 16, 32);
    assert_eq!(
        r.set_chunk(3, 16),
        Err(chunked_render::RendererError::InvalidChunkOffset { x: 3, y: 16 })
    );
    assert_eq!(
        r.set_chunk(16, 20),
        Err(chunked_render::RendererError::InvalidChunkOffset { x: 16, y: 20 })
    );
    assert_eq!(r.set_chunk(48, 16), Ok(()));
}

#[test]
fn drained_channel_starts_empty_again() {
    let mut r = Sh1107Render::new(CollectingChannel::new(), 16, 16, 16, 16, 32);
    r.set_chunk(0, 0).unwrap();
    r.clear().unwrap();
    r.flush().unwrap();
    let first = r.channel_mut().drain();
    assert_eq!(first.len(), 8);
    assert!(r.channel().sent().is_empty());
    // the next flush produces a fresh batch, not a growing backlog
    r.flush().unwrap();
    let second = r.channel_mut().drain();
    assert_eq!(second.len(), 8);
    assert_eq!(first, second);
    assert!(r.channel().sent().is_empty());
}
