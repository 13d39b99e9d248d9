use alacritty_graphics::attachments::{GraphicItem, TextureName};
use alacritty_graphics::command::{BlitGraphicData, GraphicsCommand, ResizeTextureData};
use alacritty_graphics::geometry::SizeInfo;
use alacritty_graphics::graphics::{ColorType, GraphicData};
use alacritty_graphics::prepare::{attach_graphics, attachable};
use alacritty_graphics::store::Graphics;

use alacritty_graphics::command::GraphicsCommand::{BlitGraphic, InitTexture, ResizeTexture};

#[test]
fn attach_with_overlapping_graphics() {
    // This test put multiple graphics in the grid, in positions that can
    // trigger the different cases of `attach_graphics`.

    const CELL_WIDTH: usize = 2;
    const CELL_HEIGHT: usize = 4;

    let mut pending_graphics = vec![];

    // Non-overlapping graphic, lines 2..12.
    pending_graphics.push(GraphicData::with_size(
        ColorType::RGB,
        10,
        2,
        CELL_WIDTH * 5,
        CELL_HEIGHT * 10 - 3,
    ));

    // Non-overlapping graphic, line 15..35.
    pending_graphics.push(GraphicData::with_size(
        ColorType::RGB,
        5,
        15,
        CELL_WIDTH * 30,
        CELL_HEIGHT * 20,
    ));

    // Overlapping graphic, line 0..5.
    pending_graphics.push(GraphicData::with_size(
        ColorType::RGB,
        0,
        0,
        CELL_WIDTH * 5,
        CELL_HEIGHT * 5,
    ));

    // Overlapping graphic, line 10..20.
    pending_graphics.push(GraphicData::with_size(
        ColorType::RGB,
        2,
        10,
        CELL_WIDTH * 30,
        CELL_HEIGHT * 10,
    ));

    // Overlapping graphic, line 25..30.
    pending_graphics.push(GraphicData::with_size(
        ColorType::RGBA,
        15,
        25,
        CELL_WIDTH * 5,
        CELL_HEIGHT * 5,
    ));

    // Attach the pending graphics to the grid.

    let size_info = SizeInfo::new(1000, 1000, CELL_WIDTH, CELL_HEIGHT, 0, 0);

    let mut texture_counter = 10..;
    let mut commands = Vec::new();
    let mut graphics = Graphics::default();

    for graphic_data in pending_graphics {
        assert!(attachable(&graphics, &size_info, &graphic_data));
        attach_graphics(&mut graphics, &size_info, &mut commands, graphic_data, || {
            texture_counter.next().unwrap()
        });
    }

    // Verify the emitted commands.
    //
    // The first two graphics only need an InitTexture command.

    let mut commands = commands.into_iter();

    assert_eq!(
        commands.next(),
        Some(InitTexture(
            10,
            GraphicData::with_size(ColorType::RGB, 10, 2, CELL_WIDTH * 5, CELL_HEIGHT * 10 - 3)
        ))
    );

    assert_eq!(
        commands.next(),
        Some(InitTexture(
            11,
            GraphicData::with_size(ColorType::RGB, 5, 15, CELL_WIDTH * 30, CELL_HEIGHT * 20)
        ))
    );

    // The third graphic is split in two textures. The lower part is merged
    // with the first graphic, which needs to be resized.

    assert_eq!(
        commands.next(),
        Some(InitTexture(
            12,
            GraphicData::with_size(ColorType::RGB, 0, 0, CELL_WIDTH * 5, CELL_HEIGHT * 2)
        ))
    );

    assert_eq!(
        commands.next(),
        Some(ResizeTexture(ResizeTextureData {
            target_texture: 13,
            source: GraphicItem {
                texture: TextureName(10),
                column: 10,
                bottom: 11,
                cell_height: CELL_HEIGHT,
                width: CELL_WIDTH * 5,
                height: CELL_HEIGHT * 10 - 3,
            },
            source_offset: CELL_WIDTH * 10,
            width: CELL_WIDTH * 15,
            height: CELL_HEIGHT * 10,
        }))
    );

    assert_eq!(
        commands.next(),
        Some(BlitGraphic(BlitGraphicData {
            texture: 13,
            offset_x: 0,
            offset_y: 0,
            width: CELL_WIDTH * 5,
            height: CELL_HEIGHT * 3,
            color_type: ColorType::RGB,
            pixels: vec![0; (CELL_WIDTH * 5) * (CELL_HEIGHT * 3) * 3],
        }))
    );

    // The fourth graphic overlaps two existing textures.

    assert_eq!(
        commands.next(),
        Some(ResizeTexture(ResizeTextureData {
            target_texture: 14,
            source: GraphicItem {
                texture: TextureName(13),
                column: 0,
                bottom: 11,
                cell_height: CELL_HEIGHT,
                width: CELL_WIDTH * 15,
                height: CELL_HEIGHT * 10,
            },
            source_offset: 0,
            width: CELL_WIDTH * 32,
            height: CELL_HEIGHT * 10,
        }))
    );

    assert_eq!(
        commands.next(),
        Some(BlitGraphic(BlitGraphicData {
            texture: 14,
            offset_x: CELL_WIDTH * 2,
            offset_y: CELL_HEIGHT * 8,
            width: CELL_WIDTH * 30,
            height: CELL_HEIGHT * 2,
            color_type: ColorType::RGB,
            pixels: vec![0; (CELL_WIDTH * 30) * (CELL_HEIGHT * 2) * 3],
        }))
    );

    assert_eq!(
        commands.next(),
        Some(InitTexture(
            15,
            GraphicData::with_size(ColorType::RGB, 2, 12, CELL_WIDTH * 30, CELL_HEIGHT * 3)
        ))
    );

    assert_eq!(
        commands.next(),
        Some(ResizeTexture(ResizeTextureData {
            target_texture: 16,
            source: GraphicItem {
                texture: TextureName(11),
                column: 5,
                bottom: 34,
                cell_height: CELL_HEIGHT,
                width: CELL_WIDTH * 30,
                height: CELL_HEIGHT * 20,
            },
            source_offset: 6,
            width: CELL_WIDTH * 33,
            height: CELL_HEIGHT * 20,
        }))
    );

    assert_eq!(
        commands.next(),
        Some(BlitGraphic(BlitGraphicData {
            texture: 16,
            offset_x: 0,
            offset_y: 0,
            width: CELL_WIDTH * 30,
            height: CELL_HEIGHT * 5,
            color_type: ColorType::RGB,
            pixels: vec![0; (CELL_WIDTH * 30) * (CELL_HEIGHT * 5) * 3],
        }))
    );

    // The last graphic doesn't need to resize any existing texture.
    assert_eq!(
        commands.next(),
        Some(BlitGraphic(BlitGraphicData {
            texture: 16,
            offset_x: CELL_WIDTH * 13,
            offset_y: CELL_HEIGHT * 10,
            width: CELL_WIDTH * 5,
            height: CELL_HEIGHT * 5,
            color_type: ColorType::RGBA,
            pixels: vec![0; (CELL_WIDTH * 5) * (CELL_HEIGHT * 5) * 4],
        }))
    );

    // No more commands.
    assert_eq!(commands.next(), None);

    // Check attached graphics.

    assert_eq!(
        graphics.attachments.remove(0),
        Some(GraphicItem {
            texture: TextureName(12),
            column: 0,
            bottom: 1,
            cell_height: CELL_HEIGHT,
            width: CELL_WIDTH * 5,
            height: CELL_HEIGHT * 2,
        })
    );

    assert_eq!(
        graphics.attachments.remove(2),
        Some(GraphicItem {
            texture: TextureName(14),
            column: 0,
            bottom: 11,
            cell_height: CELL_HEIGHT,
            width: CELL_WIDTH * 32,
            height: CELL_HEIGHT * 10,
        })
    );

    assert_eq!(
        graphics.attachments.remove(12),
        Some(GraphicItem {
            texture: TextureName(15),
            column: 2,
            bottom: 14,
            cell_height: CELL_HEIGHT,
            width: CELL_WIDTH * 30,
            height: CELL_HEIGHT * 3,
        })
    );

    assert_eq!(
        graphics.attachments.remove(15),
        Some(GraphicItem {
            texture: TextureName(16),
            column: 2,
            bottom: 34,
            cell_height: CELL_HEIGHT,
            width: CELL_WIDTH * 33,
            height: CELL_HEIGHT * 20,
        })
    );

    assert!(graphics.attachments.is_empty());

    assert_eq!(texture_counter.next(), Some(17));
}

const SIZE: (usize, usize) = (2, 4);

fn size_info() -> SizeInfo {
    SizeInfo::new(1000, 1000, SIZE.0, SIZE.1, 0, 0)
}

/// A graphic whose bytes count up, so that every row of pixels is told from
/// the others.
fn counting(color_type: ColorType, column: usize, line: i64, width: usize, height: usize) -> GraphicData {
    let mut graphic = GraphicData::with_size(color_type, column, line, width, height);
    for (i, byte) in graphic.pixels.iter_mut().enumerate() {
        *byte = (i % 251) as u8;
    }
    graphic
}

fn attach(
    graphics: &mut Graphics,
    size_info: &SizeInfo,
    graphic: GraphicData,
    next_texture: &mut u32,
) -> Vec<GraphicsCommand> {
    assert!(attachable(graphics, size_info, &graphic));
    let mut commands = Vec::new();
    attach_graphics(graphics, size_info, &mut commands, graphic, || {
        *next_texture += 1;
        *next_texture
    });
    commands
}

fn regions(graphics: &Graphics) -> Vec<(i64, GraphicItem)> {
    (0..graphics.attachments.len())
        .map(|i| {
            let attachment = graphics.attachments.entry(i);
            (attachment.line, attachment.item)
        })
        .collect()
}

fn kinds(commands: &[GraphicsCommand]) -> String {
    commands
        .iter()
        .map(|command| match command {
            GraphicsCommand::DeleteTextures(_) => 'D',
            InitTexture(..) => 'I',
            ResizeTexture(_) => 'R',
            BlitGraphic(_) => 'B',
            GraphicsCommand::Render(_) => 'V',
        })
        .collect()
}

#[test]
fn graphics_apart_get_a_texture_each() {
    let size_info = size_info();
    let mut graphics = Graphics::new();
    let mut texture = 0;
    let all = [
        counting(ColorType::RGB, 3, 10, 6, 8),
        counting(ColorType::RGBA, 0, 0, 4, 37),
        counting(ColorType::RGB, 9, 12, 2, 1),
        counting(ColorType::RGB, 9, -5, 2, 20),
    ];
    for (i, graphic) in all.iter().enumerate() {
        let commands = attach(&mut graphics, &size_info, graphic.clone(), &mut texture);
        assert_eq!(commands, vec![InitTexture(i as u32 + 1, graphic.clone())]);
        assert_eq!(graphics.attachments.len(), i + 1);
    }
    let item = |texture: u32, column: usize, bottom: i64, width: usize, height: usize| GraphicItem {
        texture: TextureName(texture),
        column,
        bottom,
        cell_height: 4,
        width,
        height,
    };
    assert_eq!(
        regions(&graphics),
        vec![
            (-5, item(4, 9, -1, 2, 20)),
            (0, item(2, 0, 9, 4, 37)),
            (10, item(1, 3, 11, 6, 8)),
            (12, item(3, 9, 12, 2, 1)),
        ]
    );
}

#[test]
fn the_same_graphic_twice_is_copied_into_its_texture() {
    let size_info = size_info();
    let mut graphics = Graphics::new();
    let mut texture = 0;
    let first = counting(ColorType::RGB, 2, 5, 10, 20);
    let mut second = first.clone();
    second.pixels.reverse();

    attach(&mut graphics, &size_info, first, &mut texture);
    let before = regions(&graphics);
    let commands = attach(&mut graphics, &size_info, second.clone(), &mut texture);

    assert_eq!(
        commands,
        vec![BlitGraphic(BlitGraphicData {
            texture: 1,
            offset_x: 0,
            offset_y: 0,
            width: 10,
            height: 20,
            color_type: ColorType::RGB,
            pixels: second.pixels,
        })]
    );
    assert_eq!(regions(&graphics), before);
    assert_eq!(texture, 1);
}

#[test]
fn the_same_graphic_twice_replaces_a_texture_that_ends_within_a_cell() {
    let size_info = size_info();
    let mut graphics = Graphics::new();
    let mut texture = 0;
    let graphic = counting(ColorType::RGB, 2, 5, 10, 37);

    attach(&mut graphics, &size_info, graphic.clone(), &mut texture);
    let commands = attach(&mut graphics, &size_info, graphic.clone(), &mut texture);

    assert_eq!(kinds(&commands), "RB");
    assert_eq!(
        commands[0],
        ResizeTexture(ResizeTextureData {
            target_texture: 2,
            source: GraphicItem {
                texture: TextureName(1),
                column: 2,
                bottom: 14,
                cell_height: 4,
                width: 10,
                height: 37,
            },
            source_offset: 0,
            width: 10,
            height: 40,
        })
    );
    // The third time, the texture ends with the last row of a cell.
    let commands = attach(&mut graphics, &size_info, graphic, &mut texture);
    assert_eq!(kinds(&commands), "B");
    assert_eq!(texture, 2);
}

#[test]
fn a_graphic_on_top_of_another() {
    // Cells of 2 by 4 pixels. A covers the rows 0 to 4, and B the rows 0 and 1.
    let size_info = size_info();
    let mut graphics = Graphics::new();
    let mut texture = 0;
    let a = counting(ColorType::RGB, 0, 0, 10, 20);
    let b = counting(ColorType::RGB, 0, 0, 10, 8);

    assert_eq!(kinds(&attach(&mut graphics, &size_info, a, &mut texture)), "I");
    let before = regions(&graphics);
    let commands = attach(&mut graphics, &size_info, b.clone(), &mut texture);

    assert_eq!(
        commands,
        vec![BlitGraphic(BlitGraphicData {
            texture: 1,
            offset_x: 0,
            offset_y: 0,
            width: 10,
            height: 8,
            color_type: ColorType::RGB,
            pixels: b.pixels,
        })]
    );
    assert_eq!(regions(&graphics), before);
    assert_eq!(graphics.attachments.len(), 1);
    assert_eq!(texture, 1);
}

#[test]
fn a_graphic_that_starts_above_another() {
    let size_info = size_info();
    let mut texture = 100;
    let mut graphics = Graphics::new();
    attach(&mut graphics, &size_info, counting(ColorType::RGB, 0, 3, 10, 16), &mut texture);

    // Three rows above the graphic, and two rows on it.
    let graphic = counting(ColorType::RGB, 1, 0, 4, 20);
    let stride = 4 * 3;
    let commands = attach(&mut graphics, &size_info, graphic.clone(), &mut texture);

    assert_eq!(kinds(&commands), "IB");
    assert_eq!(
        commands[0],
        InitTexture(
            102,
            GraphicData {
                height: 12,
                pixels: graphic.pixels[..12 * stride].to_vec(),
                ..graphic.clone()
            }
        )
    );
    assert_eq!(
        commands[1],
        BlitGraphic(BlitGraphicData {
            texture: 101,
            offset_x: 2,
            offset_y: 0,
            width: 4,
            height: 8,
            color_type: ColorType::RGB,
            pixels: graphic.pixels[12 * stride..].to_vec(),
        })
    );
    assert_eq!(
        regions(&graphics)[0],
        (
            0,
            GraphicItem {
                texture: TextureName(102),
                column: 1,
                bottom: 2,
                cell_height: 4,
                width: 4,
                height: 12,
            }
        )
    );

    // What follows the rows above is what the rest of the graphic gives when it
    // is attached alone.
    let mut alone = Graphics::new();
    let mut other = 100;
    attach(&mut alone, &size_info, counting(ColorType::RGB, 0, 3, 10, 16), &mut other);
    let rest = GraphicData {
        line: 3,
        height: 8,
        pixels: graphic.pixels[12 * stride..].to_vec(),
        ..graphic
    };
    assert_eq!(attach(&mut alone, &size_info, rest, &mut other), commands[1..].to_vec());
}

#[test]
fn a_graphic_across_graphics_and_gaps() {
    let size_info = size_info();
    let mut texture = 0;
    let mut graphics = Graphics::new();
    // Rows 2 and 3, rows 6 to 8, row 20.
    attach(&mut graphics, &size_info, counting(ColorType::RGBA, 0, 2, 40, 8), &mut texture);
    attach(&mut graphics, &size_info, counting(ColorType::RGBA, 4, 6, 4, 10), &mut texture);
    attach(&mut graphics, &size_info, counting(ColorType::RGBA, 0, 20, 4, 4), &mut texture);

    // Rows 3 to 10: 30 rows of pixels, the last row of the grid half filled.
    let graphic = counting(ColorType::RGBA, 2, 3, 6, 30);
    let stride = 6 * 4;
    let commands = attach(&mut graphics, &size_info, graphic.clone(), &mut texture);

    assert_eq!(kinds(&commands), "BIRBI");
    let rows = |from: usize, to: usize| graphic.pixels[from * stride..to * stride].to_vec();
    assert_eq!(
        commands[0],
        BlitGraphic(BlitGraphicData {
            texture: 1,
            offset_x: 4,
            offset_y: 4,
            width: 6,
            height: 4,
            color_type: ColorType::RGBA,
            pixels: rows(0, 4),
        })
    );
    assert_eq!(
        commands[1],
        InitTexture(
            4,
            GraphicData { line: 4, height: 8, pixels: rows(4, 12), ..graphic.clone() }
        )
    );
    assert_eq!(
        commands[2],
        ResizeTexture(ResizeTextureData {
            target_texture: 5,
            source: GraphicItem {
                texture: TextureName(2),
                column: 4,
                bottom: 8,
                cell_height: 4,
                width: 4,
                height: 10,
            },
            source_offset: 4,
            width: 8,
            height: 12,
        })
    );
    assert_eq!(
        commands[3],
        BlitGraphic(BlitGraphicData {
            texture: 5,
            offset_x: 0,
            offset_y: 0,
            width: 6,
            height: 12,
            color_type: ColorType::RGBA,
            pixels: rows(12, 24),
        })
    );
    assert_eq!(
        commands[4],
        InitTexture(
            6,
            GraphicData { line: 9, height: 6, pixels: rows(24, 30), ..graphic.clone() }
        )
    );

    let lines: Vec<(i64, i64, u32)> = regions(&graphics)
        .iter()
        .map(|(line, item)| (*line, item.bottom, item.texture.0))
        .collect();
    assert_eq!(lines, vec![(2, 3, 1), (4, 5, 4), (6, 8, 5), (9, 10, 6), (20, 20, 3)]);

    // Every pixel of the graphic is in one command, in the order of the graphic.
    let mut carried = Vec::new();
    for command in &commands {
        match command {
            InitTexture(_, data) => carried.extend_from_slice(&data.pixels),
            BlitGraphic(data) => carried.extend_from_slice(&data.pixels),
            _ => {},
        }
    }
    assert_eq!(carried, graphic.pixels);
}

#[test]
fn a_graphic_without_pixels_gives_nothing() {
    let size_info = size_info();
    let mut texture = 0;
    let mut graphics = Graphics::new();
    attach(&mut graphics, &size_info, counting(ColorType::RGB, 0, 0, 10, 20), &mut texture);
    let before = regions(&graphics);

    for graphic in [
        GraphicData::with_size(ColorType::RGB, 0, 0, 0, 8),
        GraphicData::with_size(ColorType::RGB, 0, 1, 5, 0),
        GraphicData::with_size(ColorType::RGB, 50, 30, 0, 0),
        GraphicData::with_size(ColorType::RGB, 0, i64::MIN, 5, 0),
    ] {
        assert_eq!(attach(&mut graphics, &size_info, graphic, &mut texture), vec![]);
    }
    assert_eq!(regions(&graphics), before);
    assert_eq!(texture, 1);
}

#[test]
fn a_texture_is_replaced_where_the_graphic_does_not_fit() {
    let size_info = size_info();
    let base = counting(ColorType::RGB, 4, 0, 8, 8);

    // Left of the texture, right of it, within it.
    for (column, width, resized, offset, new_column, new_width) in [
        (3, 2, true, 0, 3, 10),
        (4, 9, true, 0, 4, 9),
        (7, 3, true, 6, 4, 9),
        (0, 20, true, 0, 0, 20),
        (4, 8, false, 0, 4, 8),
        (5, 6, false, 2, 4, 8),
        (8, 0, false, 0, 4, 8),
    ] {
        let mut texture = 0;
        let mut graphics = Graphics::new();
        attach(&mut graphics, &size_info, base.clone(), &mut texture);
        let graphic = counting(ColorType::RGB, column, 1, width, 4);
        let commands = attach(&mut graphics, &size_info, graphic, &mut texture);
        if width == 0 {
            assert_eq!(kinds(&commands), "");
            continue;
        }
        assert_eq!(kinds(&commands), if resized { "RB" } else { "B" });
        match commands.last() {
            Some(BlitGraphic(data)) => {
                assert_eq!(data.texture, if resized { 2 } else { 1 });
                assert_eq!((data.offset_x, data.offset_y), (offset, 4));
                assert_eq!((data.width, data.height), (width, 4));
            },
            _ => unreachable!(),
        }
        let region = regions(&graphics)[0].1;
        assert_eq!((region.column, region.width, region.height), (new_column, new_width, 8));
        assert_eq!(region.bottom, 1);
    }
}

#[test]
fn attachable_tells_what_cannot_be_attached() {
    let size_info = size_info();
    let graphics = Graphics::new();
    let good = GraphicData::with_size(ColorType::RGB, 1, 1, 2, 2);
    assert!(attachable(&graphics, &size_info, &good));

    let mut short = good.clone();
    short.pixels.pop();
    assert!(!attachable(&graphics, &size_info, &short));
    let mut long = good.clone();
    long.pixels.push(0);
    assert!(!attachable(&graphics, &size_info, &long));

    let low = GraphicData { line: i64::MAX, ..good.clone() };
    assert!(attachable(&graphics, &size_info, &low));
    let lower = GraphicData { height: 5, pixels: vec![0; 30], ..low };
    assert!(!attachable(&graphics, &size_info, &lower));

    // The right side is 2 * column + 2 pixels from the left of the grid.
    let far = GraphicData { column: usize::MAX / 2 - 1, ..good.clone() };
    assert!(attachable(&graphics, &size_info, &far));
    let farther = GraphicData { column: usize::MAX / 2, ..good.clone() };
    assert!(!attachable(&graphics, &size_info, &farther));

    let no_cells = SizeInfo { cell_height: 0, ..size_info };
    assert!(!attachable(&graphics, &no_cells, &good));
    let no_cells = SizeInfo { cell_width: 0, ..size_info };
    assert!(!attachable(&graphics, &no_cells, &good));
    let no_room = SizeInfo { padding_x: 501, ..size_info };
    assert!(!attachable(&graphics, &no_room, &good));

    // A graphic of the grid whose texture was made with cells of another
    // height is in nobody's way while the rows of pixels can be counted.
    let mut graphics = Graphics::new();
    graphics.attach(10, stale(1, 11, 4, 16));
    assert!(attachable(&graphics, &size_info, &GraphicData { line: 11, ..good.clone() }));
    assert!(attachable(&graphics, &size_info, &GraphicData { line: 12, ..good.clone() }));
    assert!(attachable(&graphics, &size_info, &GraphicData { line: 9, ..good.clone() }));
    let taller = SizeInfo { cell_height: 8, ..size_info };
    assert!(attachable(&graphics, &taller, &GraphicData { line: 11, ..good.clone() }));
    let odd = SizeInfo { cell_height: 5, ..size_info };
    assert!(attachable(&graphics, &odd, &GraphicData { line: 11, ..good }));
}

/// A graphic of the grid whose texture was made with cells of the height
/// `8`: `height` rows of pixels for the rows down to `bottom`.
fn stale(texture: u32, bottom: i64, width: usize, height: usize) -> GraphicItem {
    GraphicItem { texture: TextureName(texture), column: 0, bottom, cell_height: 8, width, height }
}

#[test]
fn a_graphic_within_a_texture_of_taller_cells_is_copied() {
    // The texture has 16 rows of pixels for the rows 10 and 11, which have 8
    // with cells of 4 pixels. It is a whole number of cells high: it is kept.
    let size_info = size_info();
    let mut graphics = Graphics::new();
    graphics.attach(10, stale(7, 11, 4, 16));
    let before = regions(&graphics);
    let mut texture = 0;
    let graphic = counting(ColorType::RGB, 1, 11, 2, 2);

    let commands = attach(&mut graphics, &size_info, graphic.clone(), &mut texture);

    assert_eq!(
        commands,
        vec![BlitGraphic(BlitGraphicData {
            texture: 7,
            offset_x: 2,
            offset_y: 4,
            width: 2,
            height: 2,
            color_type: ColorType::RGB,
            pixels: graphic.pixels,
        })]
    );
    assert_eq!(regions(&graphics), before);
    assert_eq!(texture, 0);
}

#[test]
fn a_graphic_below_its_rows_fits_in_a_texture_of_taller_cells() {
    // The graphic covers the rows 10 to 12, one more than the graphic of the
    // grid, whose texture still has room for its 12 rows of pixels.
    let size_info = size_info();
    let mut graphics = Graphics::new();
    graphics.attach(10, stale(7, 11, 4, 16));
    let before = regions(&graphics);
    let mut texture = 0;
    let graphic = counting(ColorType::RGBA, 0, 10, 4, 12);

    let commands = attach(&mut graphics, &size_info, graphic, &mut texture);

    assert_eq!(kinds(&commands), "B");
    assert_eq!(regions(&graphics), before);
    assert_eq!(texture, 0);
}

#[test]
fn a_texture_of_other_cells_is_replaced_where_it_ends_within_a_cell() {
    // 10 rows of pixels are no whole number of cells of 4: the texture is
    // replaced by one of 8 rows of pixels, for the rows 10 and 11.
    let size_info = size_info();
    let mut graphics = Graphics::new();
    graphics.attach(10, stale(7, 11, 4, 10));
    let mut texture = 0;
    let graphic = counting(ColorType::RGB, 0, 11, 2, 4);

    let commands = attach(&mut graphics, &size_info, graphic.clone(), &mut texture);

    assert_eq!(
        commands,
        vec![
            ResizeTexture(ResizeTextureData {
                target_texture: 1,
                source: stale(7, 11, 4, 10),
                source_offset: 0,
                width: 4,
                height: 8,
            }),
            BlitGraphic(BlitGraphicData {
                texture: 1,
                offset_x: 0,
                offset_y: 4,
                width: 2,
                height: 4,
                color_type: ColorType::RGB,
                pixels: graphic.pixels,
            }),
        ]
    );
    assert_eq!(
        regions(&graphics),
        vec![(
            10,
            GraphicItem {
                texture: TextureName(1),
                column: 0,
                bottom: 11,
                cell_height: 4,
                width: 4,
                height: 8,
            }
        )]
    );
    assert_eq!(texture, 1);
}

#[test]
fn a_graphic_goes_on_below_a_texture_of_smaller_cells() {
    // The texture has 4 rows of pixels for the rows 10 and 11. The graphic
    // covers the rows 10 to 12: 4 of its rows of pixels fit, the other 8
    // become a graphic below, down to the row 12.
    let size_info = size_info();
    let mut graphics = Graphics::new();
    graphics.attach(10, stale(7, 11, 4, 4));
    let mut texture = 0;
    let graphic = counting(ColorType::RGB, 0, 10, 4, 12);

    let commands = attach(&mut graphics, &size_info, graphic.clone(), &mut texture);

    let stride = 4 * 3;
    assert_eq!(
        commands,
        vec![
            BlitGraphic(BlitGraphicData {
                texture: 7,
                offset_x: 0,
                offset_y: 0,
                width: 4,
                height: 4,
                color_type: ColorType::RGB,
                pixels: graphic.pixels[..4 * stride].to_vec(),
            }),
            InitTexture(
                1,
                GraphicData {
                    line: 12,
                    height: 8,
                    pixels: graphic.pixels[4 * stride..].to_vec(),
                    ..graphic.clone()
                }
            ),
        ]
    );
    assert_eq!(
        regions(&graphics),
        vec![
            (10, stale(7, 11, 4, 4)),
            (
                12,
                GraphicItem {
                    texture: TextureName(1),
                    column: 0,
                    bottom: 12,
                    cell_height: 4,
                    width: 4,
                    height: 8,
                }
            ),
        ]
    );
    assert_eq!(texture, 1);
}

#[test]
fn attachable_refuses_what_textures_of_other_cells_cannot_take() {
    let size_info = size_info();

    // The row 15 starts 20 rows of pixels below the top of the graphic of the
    // grid, whose texture has 16.
    let mut graphics = Graphics::new();
    graphics.attach(10, stale(7, 15, 4, 16));
    assert!(!attachable(&graphics, &size_info, &counting(ColorType::RGB, 0, 15, 2, 2)));
    // The row 14 starts where the texture ends, and 4 rows of pixels above
    // that the row 13.
    assert!(!attachable(&graphics, &size_info, &counting(ColorType::RGB, 0, 14, 2, 2)));
    assert!(attachable(&graphics, &size_info, &counting(ColorType::RGB, 0, 13, 2, 4)));
    assert!(!attachable(&graphics, &size_info, &counting(ColorType::RGB, 0, 13, 2, 5)));
    // Wider than the texture, the graphic has it replaced by one for 6 rows.
    assert!(attachable(&graphics, &size_info, &counting(ColorType::RGB, 0, 15, 6, 2)));

    // The texture has room for 4 of the 8 rows of pixels, and the graphic
    // ends on the last row of the graphic of the grid: no row is left for the
    // other 4.
    let mut graphics = Graphics::new();
    graphics.attach(10, stale(7, 11, 4, 4));
    assert!(!attachable(&graphics, &size_info, &counting(ColorType::RGB, 0, 10, 4, 8)));
    assert!(!attachable(&graphics, &size_info, &counting(ColorType::RGB, 0, 11, 4, 2)));
    assert!(attachable(&graphics, &size_info, &counting(ColorType::RGB, 0, 10, 4, 4)));
    assert!(attachable(&graphics, &size_info, &counting(ColorType::RGB, 0, 10, 4, 12)));

    // The texture takes 16 of the 20 rows of pixels. The rows 11 and 12, above
    // the next graphic of the grid, would take 8, and 4 are left.
    let mut graphics = Graphics::new();
    graphics.attach(10, stale(7, 10, 4, 16));
    graphics.attach(13, stale(8, 13, 4, 4));
    assert!(!attachable(&graphics, &size_info, &counting(ColorType::RGB, 0, 10, 4, 20)));
    assert!(attachable(&graphics, &size_info, &counting(ColorType::RGB, 0, 10, 4, 16)));
    assert!(attachable(&graphics, &size_info, &counting(ColorType::RGB, 0, 11, 4, 12)));
}

#[test]
fn a_graphic_that_ends_with_the_rows_above_another_stops_there() {
    // The texture of the row 10 takes 16 of the 24 rows of pixels. The rows 11
    // and 12 take the other 8, and nothing is left for the graphic of the row
    // 13, which stays as it is.
    let size_info = size_info();
    let mut graphics = Graphics::new();
    graphics.attach(10, stale(7, 10, 4, 16));
    graphics.attach(13, stale(8, 13, 2, 4));
    let mut texture = 0;
    let graphic = counting(ColorType::RGB, 0, 10, 4, 24);

    let commands = attach(&mut graphics, &size_info, graphic.clone(), &mut texture);

    let stride = 4 * 3;
    assert_eq!(
        commands,
        vec![
            BlitGraphic(BlitGraphicData {
                texture: 7,
                offset_x: 0,
                offset_y: 0,
                width: 4,
                height: 16,
                color_type: ColorType::RGB,
                pixels: graphic.pixels[..16 * stride].to_vec(),
            }),
            InitTexture(
                1,
                GraphicData {
                    line: 11,
                    height: 8,
                    pixels: graphic.pixels[16 * stride..].to_vec(),
                    ..graphic.clone()
                }
            ),
        ]
    );
    assert_eq!(
        regions(&graphics),
        vec![
            (10, stale(7, 10, 4, 16)),
            (
                11,
                GraphicItem {
                    texture: TextureName(1),
                    column: 0,
                    bottom: 12,
                    cell_height: 4,
                    width: 4,
                    height: 8,
                }
            ),
            (13, stale(8, 13, 2, 4)),
        ]
    );
    assert_eq!(texture, 1);
}
