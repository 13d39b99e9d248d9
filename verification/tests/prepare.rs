use alacritty_graphics::attachments::{GraphicItem, TextureName};
use alacritty_graphics::command::VertexSide::{BottomLeft, BottomRight, TopLeft, TopRight};
use alacritty_graphics::command::{GraphicsCommand, RenderData, Vertex};
use alacritty_graphics::geometry::SizeInfo;
use alacritty_graphics::graphics::ResizeParameter::{Auto, Cells, Pixels};
use alacritty_graphics::graphics::{ColorType, GraphicData, ResizeCommand};
use alacritty_graphics::prepare::{attachable, delete, prepare, render_commands};
use alacritty_graphics::renderer::{GraphicTexture, GraphicsRenderer};
use alacritty_graphics::store::{Graphics, LineRange};

fn item(texture: u32, column: usize, bottom: i64, width: usize, height: usize) -> GraphicItem {
    GraphicItem { texture: TextureName(texture), column, bottom, cell_height: 4, width, height }
}

fn quad(texture: u32, column: usize, line: i64, width: usize, height: usize) -> Vec<Vertex> {
    [TopLeft, TopRight, BottomLeft, TopRight, BottomRight, BottomLeft]
        .iter()
        .map(|&sides| Vertex {
            texture_id: texture,
            sides,
            column,
            graphics_line: line,
            height,
            width,
            base_cell_height: 4,
        })
        .collect()
}

/// A viewport of 10 rows, with cells of 2 by 4 pixels.
fn size_info() -> SizeInfo {
    SizeInfo::new(104, 48, 2, 4, 2, 4)
}

#[test]
fn delete_names_the_textures_in_their_order() {
    assert_eq!(delete(vec![]), GraphicsCommand::DeleteTextures(vec![]));
    let items = vec![item(7, 0, 0, 1, 1), item(3, 0, 0, 1, 1), item(7, 0, 0, 1, 1)];
    assert_eq!(delete(items), GraphicsCommand::DeleteTextures(vec![7, 3, 7]));
}

#[test]
fn render_draws_what_the_viewport_shows() {
    let size_info = size_info();
    assert_eq!(size_info.screen_lines, 10);
    let mut graphics = Graphics::new();
    graphics.base_position = 100;
    // Above the viewport, into it from above, within it, out of it, below it.
    graphics.attach(90, item(1, 0, 99, 8, 40));
    graphics.attach(100, item(2, 1, 100, 8, 4));
    graphics.attach(105, item(3, 2, 106, 6, 8));
    graphics.attach(109, item(4, 3, 120, 4, 48));
    graphics.attach(121, item(5, 4, 121, 2, 4));

    let mut commands = Vec::new();
    render_commands(&graphics, &size_info, 0, &mut commands);
    let mut vertices = quad(2, 1, 100, 8, 4);
    vertices.extend(quad(3, 2, 105, 6, 8));
    vertices.extend(quad(4, 3, 109, 4, 48));
    assert_eq!(
        commands,
        vec![GraphicsCommand::Render(RenderData {
            vertices,
            graphics_line_offset: 100,
            view_width: 100,
            view_height: 40,
            cell_width: 2,
            cell_height: 4,
        })]
    );

    // Scrolled two rows up: the first graphic shows its last rows, the one
    // that started on the last row is out.
    let mut commands = vec![GraphicsCommand::DeleteTextures(vec![])];
    render_commands(&graphics, &size_info, 2, &mut commands);
    assert_eq!(commands.len(), 2);
    match &commands[1] {
        GraphicsCommand::Render(data) => {
            let mut vertices = quad(1, 0, 90, 8, 40);
            vertices.extend(quad(2, 1, 100, 8, 4));
            vertices.extend(quad(3, 2, 105, 6, 8));
            assert_eq!(data.vertices, vertices);
            assert_eq!(data.graphics_line_offset, 98);
        },
        _ => unreachable!(),
    }
}

#[test]
fn render_draws_nothing_where_nothing_shows() {
    let size_info = size_info();
    let mut graphics = Graphics::new();
    let mut commands = Vec::new();
    render_commands(&graphics, &size_info, 0, &mut commands);
    assert_eq!(commands, vec![]);

    graphics.attach(10, item(1, 0, 10, 2, 4));
    graphics.attach(-5, item(2, 0, -1, 2, 20));
    render_commands(&graphics, &size_info, 0, &mut commands);
    assert_eq!(commands, vec![]);

    render_commands(&graphics, &size_info, 1, &mut commands);
    assert_eq!(commands.len(), 1);
}

#[test]
fn render_does_not_look_further_up_than_the_tallest_graphic() {
    let size_info = size_info();
    let mut graphics = Graphics::new();
    graphics.base_position = 5000;
    // Both reach into the viewport. The first starts 4096 rows above it, the
    // second one row more.
    graphics.attach(5000 - 4097, item(1, 0, 900, 2, 4));
    graphics.attach(5000 - 4096, item(2, 0, 5000, 2, 4));
    let mut commands = Vec::new();
    render_commands(&graphics, &size_info, 0, &mut commands);
    match &commands[0] {
        GraphicsCommand::Render(data) => {
            assert_eq!(data.vertices, quad(2, 0, 5000 - 4096, 2, 4));
        },
        _ => unreachable!(),
    }
}

#[test]
fn prepare_with_nothing_to_do() {
    let mut graphics = Graphics::new();
    assert_eq!(prepare(&mut graphics, &size_info(), 0, || 1), None);

    // A graphic that does not show.
    graphics.attach(100, item(1, 0, 100, 2, 4));
    assert_eq!(prepare(&mut graphics, &size_info(), 0, || 1), None);
    assert_eq!(graphics.attachments.len(), 1);

    // A graphic that is dropped.
    let mut graphic = GraphicData::with_size(ColorType::RGB, 0, 0, 2, 2);
    graphic.resize =
        Some(ResizeCommand { width: Pixels(0), height: Auto, preserve_aspect_ratio: true });
    graphics.enqueue(graphic);
    assert_eq!(prepare(&mut graphics, &size_info(), 0, || 1), None);
    assert!(graphics.pending.is_empty());
    assert_eq!(graphics.attachments.len(), 1);
}

#[test]
fn prepare_releases_attaches_and_draws() {
    let size_info = size_info();
    let mut graphics = Graphics::new();
    graphics.base_position = 50;
    graphics.attach(40, item(1, 0, 41, 10, 8));
    graphics.attach(52, item(2, 0, 53, 10, 8));
    graphics.attach(58, item(3, 0, 58, 10, 4));
    graphics.clear_range(LineRange { start: 41, end: 52 });

    let plain = GraphicData::with_size(ColorType::RGB, 1, 50, 4, 8);
    let mut sized = GraphicData::with_size(ColorType::RGBA, 0, 58, 3, 3);
    sized.resize =
        Some(ResizeCommand { width: Cells(3), height: Pixels(4), preserve_aspect_ratio: false });
    let mut dropped = GraphicData::with_size(ColorType::RGBA, 0, 0, 3, 3);
    dropped.resize =
        Some(ResizeCommand { width: Cells(0), height: Pixels(4), preserve_aspect_ratio: false });
    let mut broken = GraphicData::with_size(ColorType::RGB, 0, 54, 4, 8);
    broken.pixels.pop();
    graphics.enqueue(plain.clone());
    graphics.enqueue(dropped);
    graphics.enqueue(broken);
    graphics.enqueue(sized);

    let mut next = 10;
    let commands = prepare(&mut graphics, &size_info, 0, || {
        next += 1;
        next
    })
    .unwrap();

    assert!(graphics.pending.is_empty());
    assert!(graphics.removed.is_empty());
    assert_eq!(commands.len(), 4);
    assert_eq!(commands[0], GraphicsCommand::DeleteTextures(vec![1, 2]));
    assert_eq!(commands[1], GraphicsCommand::InitTexture(11, plain));
    match &commands[2] {
        GraphicsCommand::BlitGraphic(data) => {
            assert_eq!(data.texture, 3);
            assert_eq!((data.offset_x, data.offset_y), (0, 0));
            assert_eq!((data.width, data.height), (6, 4));
            assert_eq!(data.color_type, ColorType::RGBA);
            assert_eq!(data.pixels, vec![0; 6 * 4 * 4]);
        },
        _ => unreachable!(),
    }
    let mut vertices = quad(11, 1, 50, 4, 8);
    vertices.extend(quad(3, 0, 58, 10, 4));
    assert_eq!(
        commands[3],
        GraphicsCommand::Render(RenderData {
            vertices,
            graphics_line_offset: 50,
            view_width: 100,
            view_height: 40,
            cell_width: 2,
            cell_height: 4,
        })
    );
    assert_eq!(graphics.attachments.len(), 2);
    assert_eq!(graphics.attachments.get(50), Some(item(11, 1, 51, 4, 8)));
    assert_eq!(next, 11);

    // Nothing is left to do but to draw.
    let again = prepare(&mut graphics, &size_info, 0, || 0).unwrap();
    assert_eq!(again, vec![commands[3].clone()]);
}

/// Numbers that look random, and are the same each time.
struct Numbers(u64);

impl Numbers {
    fn next(&mut self, below: u64) -> u64 {
        self.0 = self.0.wrapping_mul(6364136223846793005).wrapping_add(1442695040888963407);
        (self.0 >> 33) % below
    }
}

fn check(graphics: &Graphics, renderer: &GraphicsRenderer, cell_height: usize) {
    let mut last = i64::MIN;
    let mut names = Vec::new();
    for i in 0..graphics.attachments.len() {
        let attachment = graphics.attachments.entry(i);
        // No row is covered twice, and no graphic is without rows.
        assert!(i == 0 || attachment.line > last);
        assert!(attachment.line <= attachment.item.bottom);
        last = attachment.item.bottom;
        // The texture of the graphic is not higher than its rows.
        let rows = (attachment.item.bottom - attachment.line + 1) as usize;
        assert!(attachment.item.height <= rows * cell_height);
        assert!(attachment.item.height > (rows - 1) * cell_height);
        // The display holds the texture of the graphic, with its sizes.
        assert_eq!(
            renderer.texture(attachment.item.texture.0),
            Some(GraphicTexture {
                texture: attachment.item.texture,
                width: attachment.item.width,
                height: attachment.item.height,
            })
        );
        assert!(!names.contains(&attachment.item.texture.0));
        names.push(attachment.item.texture.0);
    }
}

#[test]
fn the_display_follows_the_grid() {
    let size_info = size_info();
    let mut numbers = Numbers(2024);
    let mut graphics = Graphics::new();
    let mut renderer = GraphicsRenderer::new();
    let mut next = 0;
    let mut attached = 0;

    for round in 0..400 {
        match numbers.next(10) {
            0 => {
                let start = numbers.next(60) as i64 - 10;
                let end = start + numbers.next(6) as i64 - 1;
                graphics.clear_range(LineRange { start, end });
            },
            1 => graphics.move_base_position(numbers.next(3) as i64, 30),
            2 if round % 50 == 49 => graphics.clear(),
            _ => {
                let count = 1 + numbers.next(3);
                for _ in 0..count {
                    let color_type =
                        if numbers.next(2) == 0 { ColorType::RGB } else { ColorType::RGBA };
                    let mut graphic = GraphicData::with_size(
                        color_type,
                        numbers.next(12) as usize,
                        graphics.base_position + numbers.next(40) as i64 - 5,
                        numbers.next(20) as usize,
                        numbers.next(30) as usize,
                    );
                    if numbers.next(4) == 0 {
                        graphic.resize = Some(ResizeCommand {
                            width: Cells(numbers.next(5) as u32),
                            height: Pixels(numbers.next(20) as u32),
                            preserve_aspect_ratio: numbers.next(2) == 0,
                        });
                    }
                    graphics.enqueue(graphic);
                }
            },
        }

        let offset = numbers.next(5) as usize;
        let commands = prepare(&mut graphics, &size_info, offset, || {
            next += 1;
            next
        });
        if let Some(commands) = commands {
            assert_eq!(renderer.run_updates(&commands), Ok(()));
        }
        check(&graphics, &renderer, 4);
        attached += graphics.attachments.len();
        assert!(graphics.pending.is_empty());
        assert!(graphics.removed.is_empty());
        for i in 0..graphics.attachments.len() {
            assert!(graphics.attachments.entry(i).item.bottom >= graphics.base_position - 30);
        }
    }
    assert!(attached > 400);
    assert!(next > 100);

    // Once the grid is cleared and its last commands are executed, no texture
    // is left.
    graphics.clear();
    let commands = prepare(&mut graphics, &size_info, 0, || 0).unwrap();
    assert_eq!(renderer.run_updates(&commands), Ok(()));
    assert!(renderer.is_empty());
    assert!(graphics.is_empty());
}

#[test]
fn a_graphic_that_cannot_be_attached_is_dropped() {
    let size_info = size_info();
    let mut graphics = Graphics::new();
    let graphic = GraphicData::with_size(ColorType::RGB, 0, i64::MAX, 2, 5);
    assert!(!attachable(&graphics, &size_info, &graphic));
    graphics.enqueue(graphic);
    graphics.enqueue(GraphicData::with_size(ColorType::RGB, 0, i64::MAX, 2, 4));
    let mut next = 0;
    let commands = prepare(&mut graphics, &size_info, 0, || {
        next += 1;
        next
    })
    .unwrap();
    assert_eq!(commands.len(), 1);
    assert_eq!(graphics.attachments.get(i64::MAX), Some(item(1, 0, i64::MAX, 2, 4)));
    assert_eq!(next, 1);
}

#[test]
fn prepare_attaches_to_a_texture_of_other_cells() {
    // The graphic of the grid was attached with cells of 8 pixels: 16 rows of
    // pixels for the rows 10 and 11.
    let size_info = size_info();
    let mut graphics = Graphics::new();
    graphics.attach(
        10,
        GraphicItem {
            texture: TextureName(7),
            column: 0,
            bottom: 11,
            cell_height: 8,
            width: 4,
            height: 16,
        },
    );
    let graphic = GraphicData::with_size(ColorType::RGB, 1, 11, 2, 2);
    assert!(attachable(&graphics, &size_info, &graphic));
    graphics.enqueue(graphic);
    let mut next = 0;
    let commands = prepare(&mut graphics, &size_info, 0, || {
        next += 1;
        next
    })
    .unwrap();
    assert_eq!(commands.len(), 1);
    match &commands[0] {
        GraphicsCommand::BlitGraphic(data) => {
            assert_eq!((data.texture, data.offset_x, data.offset_y), (7, 2, 4));
            assert_eq!((data.width, data.height), (2, 2));
        },
        other => panic!("not a copy: {:?}", other),
    }
    assert_eq!(graphics.attachments.len(), 1);
    assert_eq!(next, 0);
}

#[test]
fn prepare_drops_what_a_texture_of_other_cells_cannot_take() {
    // The texture has 4 rows of pixels for the rows 10 and 11, and the graphic
    // 8 for the same rows: the grid has no row for the other 4.
    let size_info = size_info();
    let mut graphics = Graphics::new();
    let region = GraphicItem {
        texture: TextureName(7),
        column: 0,
        bottom: 11,
        cell_height: 2,
        width: 4,
        height: 4,
    };
    graphics.attach(10, region);
    let graphic = GraphicData::with_size(ColorType::RGB, 0, 10, 4, 8);
    assert!(!attachable(&graphics, &size_info, &graphic));
    graphics.enqueue(graphic);
    graphics.enqueue(GraphicData::with_size(ColorType::RGB, 0, 10, 4, 4));
    let mut next = 0;
    let commands = prepare(&mut graphics, &size_info, 0, || {
        next += 1;
        next
    })
    .unwrap();
    assert_eq!(commands.len(), 1);
    assert!(matches!(commands[0], GraphicsCommand::BlitGraphic(_)));
    assert_eq!(graphics.attachments.len(), 1);
    assert_eq!(graphics.attachments.get(10), Some(region));
    assert!(graphics.pending.is_empty());
    assert_eq!(next, 0);
}
