use alacritty_graphics::attachments::{GraphicItem, TextureName};
use alacritty_graphics::command::{
    BlitGraphicData, GraphicsCommand, RenderData, ResizeTextureData, Vertex, VertexSide,
};
use alacritty_graphics::graphics::{ColorType, GraphicData};
use alacritty_graphics::renderer::{GraphicTexture, GraphicsRenderer, UpdateError, UpdateFailure};

fn init(texture: u32, width: usize, height: usize) -> GraphicsCommand {
    GraphicsCommand::InitTexture(texture, GraphicData::with_size(ColorType::RGB, 0, 0, width, height))
}

fn blit(texture: u32, x: usize, y: usize, width: usize, height: usize) -> BlitGraphicData {
    BlitGraphicData {
        texture,
        offset_x: x,
        offset_y: y,
        width,
        height,
        color_type: ColorType::RGBA,
        pixels: vec![0; width * height * 4],
    }
}

fn source(texture: u32, width: usize, height: usize) -> GraphicItem {
    GraphicItem { texture: TextureName(texture), column: 0, bottom: 0, cell_height: 4, width, height }
}

fn vertex(texture_id: u32) -> Vertex {
    Vertex {
        texture_id,
        sides: VertexSide::TopLeft,
        column: 0,
        graphics_line: 0,
        height: 1,
        width: 1,
        base_cell_height: 4,
    }
}

fn render(textures: &[u32]) -> RenderData {
    RenderData {
        vertices: textures.iter().map(|&texture| vertex(texture)).collect(),
        graphics_line_offset: 0,
        view_width: 100,
        view_height: 100,
        cell_width: 2,
        cell_height: 4,
    }
}

fn texture(name: u32, width: usize, height: usize) -> Option<GraphicTexture> {
    Some(GraphicTexture { texture: TextureName(name), width, height })
}

#[test]
fn textures_are_made_and_released() {
    let mut renderer = GraphicsRenderer::new();
    assert!(renderer.is_empty());
    assert_eq!(renderer.texture(1), None);

    assert_eq!(renderer.run_update(&init(1, 10, 20)), Ok(()));
    assert_eq!(renderer.run_update(&init(2, 3, 4)), Ok(()));
    assert_eq!(renderer.texture(1), texture(1, 10, 20));
    assert_eq!(renderer.texture(2), texture(2, 3, 4));
    assert!(!renderer.is_empty());

    // A texture that gets other pixels gets their sizes.
    assert_eq!(renderer.run_update(&init(2, 5, 6)), Ok(()));
    assert_eq!(renderer.texture(2), texture(2, 5, 6));

    // A name of no texture is passed over.
    assert_eq!(renderer.run_update(&GraphicsCommand::DeleteTextures(vec![2, 7, 2])), Ok(()));
    assert_eq!(renderer.texture(2), None);
    assert_eq!(renderer.texture(1), texture(1, 10, 20));
    renderer.remove_graphics(&vec![1]);
    assert!(renderer.is_empty());
}

#[test]
fn init_needs_the_pixels_of_the_graphic() {
    let mut renderer = GraphicsRenderer::new();
    let mut graphic = GraphicData::with_size(ColorType::RGB, 0, 0, 2, 2);
    graphic.pixels.pop();
    assert_eq!(renderer.upload_graphic(4, &graphic), Err(UpdateError::InvalidPixels(4)));
    graphic.pixels.push(0);
    graphic.pixels.push(0);
    assert_eq!(renderer.upload_graphic(4, &graphic), Err(UpdateError::InvalidPixels(4)));
    assert!(renderer.is_empty());
    graphic.pixels.pop();
    assert_eq!(renderer.upload_graphic(4, &graphic), Ok(()));

    graphic.width = usize::MAX;
    assert_eq!(renderer.upload_graphic(5, &graphic), Err(UpdateError::InvalidPixels(5)));
    graphic.height = 0;
    graphic.pixels.clear();
    assert_eq!(renderer.upload_graphic(5, &graphic), Ok(()));
    assert_eq!(renderer.texture(5), texture(5, usize::MAX, 0));
}

#[test]
fn blit_stays_within_the_texture() {
    let mut renderer = GraphicsRenderer::new();
    renderer.run_update(&init(1, 10, 20)).unwrap();

    assert_eq!(renderer.blit_graphic(&blit(1, 0, 0, 10, 20)), Ok(()));
    assert_eq!(renderer.blit_graphic(&blit(1, 4, 15, 6, 5)), Ok(()));
    assert_eq!(renderer.blit_graphic(&blit(1, 10, 20, 0, 0)), Ok(()));
    assert_eq!(renderer.blit_graphic(&blit(1, 5, 0, 6, 1)), Err(UpdateError::OutOfBounds(1)));
    assert_eq!(renderer.blit_graphic(&blit(1, 0, 16, 1, 5)), Err(UpdateError::OutOfBounds(1)));
    assert_eq!(
        renderer.blit_graphic(&blit(1, usize::MAX, 0, 1, 0)),
        Err(UpdateError::OutOfBounds(1))
    );
    assert_eq!(renderer.blit_graphic(&blit(2, 0, 0, 1, 1)), Err(UpdateError::UnknownTexture(2)));

    let mut short = blit(1, 0, 0, 2, 2);
    short.pixels.pop();
    assert_eq!(renderer.blit_graphic(&short), Err(UpdateError::InvalidPixels(1)));
    let mut other = blit(1, 0, 0, 2, 2);
    other.color_type = ColorType::RGB;
    assert_eq!(renderer.blit_graphic(&other), Err(UpdateError::InvalidPixels(1)));
    // The buffer is looked at before the region.
    let mut both = blit(1, 9, 0, 2, 2);
    both.pixels.pop();
    assert_eq!(renderer.blit_graphic(&both), Err(UpdateError::InvalidPixels(1)));
}

#[test]
fn resize_moves_the_pixels_to_a_new_texture() {
    let mut renderer = GraphicsRenderer::new();
    renderer.run_update(&init(1, 10, 20)).unwrap();

    let data = ResizeTextureData {
        target_texture: 2,
        source: source(1, 10, 20),
        source_offset: 6,
        width: 16,
        height: 24,
    };
    assert_eq!(renderer.resize_texture(&data), Ok(()));
    assert_eq!(renderer.texture(1), None);
    assert_eq!(renderer.texture(2), texture(2, 16, 24));

    // The source is gone.
    assert_eq!(renderer.resize_texture(&data), Err(UpdateError::UnknownTexture(1)));
    assert_eq!(renderer.texture(2), texture(2, 16, 24));
}

#[test]
fn resize_needs_room_for_the_pixels() {
    let mut renderer = GraphicsRenderer::new();
    renderer.run_update(&init(1, 10, 20)).unwrap();
    let data = ResizeTextureData {
        target_texture: 2,
        source: source(1, 10, 20),
        source_offset: 0,
        width: 10,
        height: 20,
    };

    // The new texture is too narrow, or too low.
    let narrow = ResizeTextureData { source_offset: 1, ..data };
    assert_eq!(renderer.resize_texture(&narrow), Err(UpdateError::OutOfBounds(2)));
    let low = ResizeTextureData { height: 19, ..data };
    assert_eq!(renderer.resize_texture(&low), Err(UpdateError::OutOfBounds(2)));
    let far = ResizeTextureData { source_offset: usize::MAX, ..data };
    assert_eq!(renderer.resize_texture(&far), Err(UpdateError::OutOfBounds(2)));

    // The source does not hold what is to be copied.
    let wide = ResizeTextureData { source: source(1, 11, 20), width: 100, ..data };
    assert_eq!(renderer.resize_texture(&wide), Err(UpdateError::OutOfBounds(1)));
    let high = ResizeTextureData { source: source(1, 10, 21), height: 100, ..data };
    assert_eq!(renderer.resize_texture(&high), Err(UpdateError::OutOfBounds(1)));

    assert_eq!(renderer.texture(1), texture(1, 10, 20));
    assert_eq!(renderer.texture(2), None);

    // A texture can take the place of itself.
    let same = ResizeTextureData { target_texture: 1, width: 12, ..data };
    assert_eq!(renderer.resize_texture(&same), Ok(()));
    assert_eq!(renderer.texture(1), texture(1, 12, 20));
}

#[test]
fn draw_needs_the_textures_of_the_graphics() {
    let mut renderer = GraphicsRenderer::new();
    assert_eq!(renderer.draw(&render(&[])), Ok(()));
    assert_eq!(renderer.draw(&render(&[3])), Err(UpdateError::UnknownTexture(3)));
    renderer.run_update(&init(3, 1, 1)).unwrap();
    renderer.run_update(&init(4, 1, 1)).unwrap();
    assert_eq!(renderer.draw(&render(&[3, 3, 4, 4, 3])), Ok(()));
    // The first texture that is missing is named.
    assert_eq!(renderer.draw(&render(&[3, 6, 4, 5])), Err(UpdateError::UnknownTexture(6)));
    assert_eq!(
        renderer.run_update(&GraphicsCommand::Render(render(&[4, 5]))),
        Err(UpdateError::UnknownTexture(5))
    );
}

#[test]
fn run_updates_stops_at_the_first_failure() {
    let mut renderer = GraphicsRenderer::new();
    let commands = vec![
        init(1, 4, 4),
        GraphicsCommand::BlitGraphic(blit(1, 0, 0, 4, 4)),
        GraphicsCommand::BlitGraphic(blit(1, 1, 0, 4, 4)),
        init(2, 4, 4),
        GraphicsCommand::DeleteTextures(vec![1]),
    ];
    assert_eq!(
        renderer.run_updates(&commands),
        Err(UpdateFailure { index: 2, error: UpdateError::OutOfBounds(1) })
    );
    // What was executed stays, what follows is not executed.
    assert_eq!(renderer.texture(1), texture(1, 4, 4));
    assert_eq!(renderer.texture(2), None);

    let mut renderer = GraphicsRenderer::new();
    let commands = vec![
        init(1, 4, 4),
        init(2, 4, 4),
        GraphicsCommand::Render(render(&[1, 2])),
        GraphicsCommand::DeleteTextures(vec![1]),
        GraphicsCommand::ResizeTexture(ResizeTextureData {
            target_texture: 3,
            source: source(2, 4, 4),
            source_offset: 2,
            width: 6,
            height: 4,
        }),
        GraphicsCommand::BlitGraphic(blit(3, 2, 0, 4, 4)),
    ];
    assert_eq!(renderer.run_updates(&commands), Ok(()));
    assert_eq!(renderer.texture(1), None);
    assert_eq!(renderer.texture(2), None);
    assert_eq!(renderer.texture(3), texture(3, 6, 4));
    assert_eq!(renderer.run_updates(&vec![]), Ok(()));

    assert_eq!(
        renderer.run_updates(&vec![GraphicsCommand::Render(render(&[1]))]),
        Err(UpdateFailure { index: 0, error: UpdateError::UnknownTexture(1) })
    );
}
