//! The textures that the display holds in the GPU, and what each command does
//! to them.
//!
//! The commands of the *prepare* phase are executed in the *draw* phase, in
//! their order, after the lock on the grid is released. What is kept here is
//! the part of that phase that needs no GPU: which textures exist, and how
//! large they are. A command is checked against it before it is handed to the
//! GPU, so that no pixel is read or written outside of a buffer, and a
//! texture that nothing refers to is found when the display shuts down.

use vstd::prelude::*;
use std::collections::HashMap;
use crate::attachments::TextureName;
use crate::command::{
    batch, BlitGraphicData, BlitGraphicView, CommandView, GraphicsCommand, RenderData,
    ResizeTextureData, Vertex,
};
use crate::graphics::{GraphicData, GraphicDataView};

verus! {

broadcast use vstd::std_specs::hash::group_hash_axioms;

/// A texture in the GPU.
#[derive(Clone, Copy, Debug, PartialEq, Eq, Structural)]
pub struct GraphicTexture {
    /// Name of the texture.
    pub texture: TextureName,
    /// Width in pixels of the texture.
    pub width: usize,
    /// Height in pixels of the texture.
    pub height: usize,
}

/// Why a command cannot be executed.
#[derive(Clone, Copy, Debug, PartialEq, Eq, Structural)]
pub enum UpdateError {
    /// No texture has this name.
    UnknownTexture(u32),
    /// The buffer for this texture does not hold the pixels that the command
    /// speaks of.
    InvalidPixels(u32),
    /// The command reaches out of this texture.
    OutOfBounds(u32),
}

/// The command that could not be executed, and why.
#[derive(Clone, Copy, Debug, PartialEq, Eq, Structural)]
pub struct UpdateFailure {
    /// Position of the command in its batch.
    pub index: usize,
    pub error: UpdateError,
}

/// The textures of the display, by their names.
pub type Textures = Map<u32, GraphicTexture>;

/// The textures left once those named in `names` are released. A name of no
/// texture is passed over.
pub open spec fn released(textures: Textures, names: Seq<u32>) -> Textures
    decreases names.len(),
{
    if names.len() == 0 {
        textures
    } else {
        released(textures, names.drop_last()).remove(names.last())
    }
}

/// The first of `vertices` whose texture does not exist, if there is one.
pub open spec fn first_unknown(textures: Textures, vertices: Seq<Vertex>) -> Option<u32>
    decreases vertices.len(),
{
    if vertices.len() == 0 {
        None
    } else {
        let before = first_unknown(textures, vertices.drop_last());
        if before.is_some() {
            before
        } else if textures.contains_key(vertices.last().texture_id) {
            None
        } else {
            Some(vertices.last().texture_id)
        }
    }
}

/// The texture named `texture` with the sizes given.
pub open spec fn sized(texture: u32, width: usize, height: usize) -> GraphicTexture {
    GraphicTexture { texture: TextureName(texture), width, height }
}

/// The textures once `texture` has the sizes and the pixels of `graphic`.
pub open spec fn initialized(textures: Textures, texture: u32, graphic: GraphicDataView) -> Result<
    Textures,
    UpdateError,
> {
    if graphic.wf() {
        Ok(textures.insert(texture, sized(texture, graphic.width, graphic.height)))
    } else {
        Err(UpdateError::InvalidPixels(texture))
    }
}

/// The textures once the pixels of the source have been copied into the new
/// texture and the source is released. The source has to exist and to hold
/// what is copied, and the new texture has to have room for it.
pub open spec fn resized(textures: Textures, data: ResizeTextureData) -> Result<
    Textures,
    UpdateError,
> {
    let source = data.source.texture.0;
    if !textures.contains_key(source) {
        Err(UpdateError::UnknownTexture(source))
    } else if data.source.width > textures[source].width || data.source.height
        > textures[source].height {
        Err(UpdateError::OutOfBounds(source))
    } else if data.source_offset + data.source.width > data.width || data.source.height
        > data.height {
        Err(UpdateError::OutOfBounds(data.target_texture))
    } else {
        Ok(
            textures.remove(source).insert(
                data.target_texture,
                sized(data.target_texture, data.width, data.height),
            ),
        )
    }
}

/// The textures once the pixels of `data` have been copied. The texture has
/// to exist, the region has to lie within it, and the buffer has to hold the
/// pixels of the region.
pub open spec fn blitted(textures: Textures, data: BlitGraphicView) -> Result<
    Textures,
    UpdateError,
> {
    if !textures.contains_key(data.texture) {
        Err(UpdateError::UnknownTexture(data.texture))
    } else if data.pixels.len() != data.height * (data.width
        * data.color_type.spec_bytes_per_pixel()) {
        Err(UpdateError::InvalidPixels(data.texture))
    } else if data.offset_x + data.width > textures[data.texture].width || data.offset_y
        + data.height > textures[data.texture].height {
        Err(UpdateError::OutOfBounds(data.texture))
    } else {
        Ok(textures)
    }
}

/// The textures once `command` has been executed, or why it cannot be.
pub open spec fn executed(textures: Textures, command: CommandView) -> Result<
    Textures,
    UpdateError,
> {
    match command {
        CommandView::DeleteTextures(names) => Ok(released(textures, names)),
        CommandView::InitTexture(texture, graphic) => initialized(textures, texture, graphic),
        CommandView::ResizeTexture(data) => resized(textures, data),
        CommandView::BlitGraphic(data) => blitted(textures, data),
        CommandView::Render(data) => match first_unknown(textures, data.vertices) {
            Some(texture) => Err(UpdateError::UnknownTexture(texture)),
            None => Ok(textures),
        },
    }
}

/// The textures once the first `count` of `commands` have been executed in
/// their order, or `None` if one of them cannot be.
pub open spec fn executed_first(textures: Textures, commands: Seq<CommandView>, count: int)
    -> Option<Textures>
    decreases count,
{
    if count <= 0 {
        Some(textures)
    } else {
        match executed_first(textures, commands, count - 1) {
            Some(before) => match executed(before, commands[count - 1]) {
                Ok(after) => Some(after),
                Err(_) => None,
            },
            None => None,
        }
    }
}

/// The textures once all of `commands` have been executed in their order, or
/// `None` if one of them cannot be.
pub open spec fn executed_all(textures: Textures, commands: Seq<CommandView>) -> Option<Textures> {
    executed_first(textures, commands, commands.len() as int)
}

/// Keeps track of the textures that the display holds in the GPU.
pub struct GraphicsRenderer {
    /// The textures, by their names.
    graphic_textures: HashMap<u32, GraphicTexture>,
}

impl View for GraphicsRenderer {
    type V = Textures;

    closed spec fn view(&self) -> Textures {
        self.graphic_textures@
    }
}

impl GraphicsRenderer {
    /// A display without textures.
    pub fn new() -> (renderer: GraphicsRenderer)
        ensures
            renderer@ == Textures::empty(),
    {
        GraphicsRenderer { graphic_textures: HashMap::new() }
    }

    /// The texture with the name `texture`.
    pub fn texture(&self, texture: u32) -> (found: Option<GraphicTexture>)
        ensures
            found.is_some() == self@.contains_key(texture),
            found.is_some() ==> found.unwrap() == self@[texture],
    {
        match self.graphic_textures.get(&texture) {
            Some(found) => Some(*found),
            None => None,
        }
    }

    /// Whether no texture is left. The display asks this when it shuts down,
    /// once the grid is cleared and its last commands are executed: a texture
    /// that is left then was never released.
    pub fn is_empty(&self) -> (empty: bool)
        ensures
            empty == (self@ == Textures::empty()),
    {
        let empty: bool = self.graphic_textures.is_empty();
        proof {
            if empty {
                assert(self@ =~= Textures::empty());
            }
        }
        empty
    }

    /// Release resources used by removed graphics.
    pub fn remove_graphics(&mut self, textures: &Vec<u32>)
        ensures
            final(self)@ == released(old(self)@, textures@),
    {
        let mut i: usize = 0;
        while i < textures.len()
            invariant
                i <= textures@.len(),
                self@ == released(old(self)@, textures@.subrange(0, i as int)),
            decreases textures@.len() - i,
        {
            let name: u32 = textures[i];
            self.graphic_textures.remove(&name);
            proof {
                let upto = textures@.subrange(0, i + 1);
                assert(upto.drop_last() =~= textures@.subrange(0, i as int));
                assert(upto.last() == name);
            }
            i = i + 1;
        }
        proof {
            assert(textures@.subrange(0, textures@.len() as int) =~= textures@);
        }
    }

    /// Keep the sizes of a texture that gets the pixels of `graphic`.
    pub fn upload_graphic(&mut self, texture: u32, graphic: &GraphicData) -> (done: Result<
        (),
        UpdateError,
    >)
        ensures
            match initialized(old(self)@, texture, graphic@) {
                Ok(textures) => done.is_ok() && final(self)@ == textures,
                Err(error) => done == Err::<(), UpdateError>(error) && final(self)@ == old(self)@,
            },
    {
        if !graphic.is_complete() {
            return Err(UpdateError::InvalidPixels(texture));
        }
        self.graphic_textures.insert(
            texture,
            GraphicTexture {
                texture: TextureName(texture),
                width: graphic.width,
                height: graphic.height,
            },
        );
        Ok(())
    }

    /// Keep the sizes of a texture that takes the place of another.
    pub fn resize_texture(&mut self, data: &ResizeTextureData) -> (done: Result<(), UpdateError>)
        ensures
            match resized(old(self)@, *data) {
                Ok(textures) => done.is_ok() && final(self)@ == textures,
                Err(error) => done == Err::<(), UpdateError>(error) && final(self)@ == old(self)@,
            },
    {
        let source: GraphicTexture = match self.texture(data.source.texture.0) {
            Some(source) => source,
            None => {
                return Err(UpdateError::UnknownTexture(data.source.texture.0));
            },
        };
        if data.source.width > source.width || data.source.height > source.height {
            return Err(UpdateError::OutOfBounds(data.source.texture.0));
        }
        let fits: bool = match data.source_offset.checked_add(data.source.width) {
            Some(right) => right <= data.width,
            None => false,
        };
        if !fits || data.source.height > data.height {
            return Err(UpdateError::OutOfBounds(data.target_texture));
        }
        self.graphic_textures.remove(&data.source.texture.0);
        self.graphic_textures.insert(
            data.target_texture,
            GraphicTexture {
                texture: TextureName(data.target_texture),
                width: data.width,
                height: data.height,
            },
        );
        Ok(())
    }

    /// Check that pixels can be copied into a region of a texture.
    pub fn blit_graphic(&self, data: &BlitGraphicData) -> (done: Result<(), UpdateError>)
        ensures
            match blitted(self@, data@) {
                Ok(textures) => done.is_ok(),
                Err(error) => done == Err::<(), UpdateError>(error),
            },
    {
        let target: GraphicTexture = match self.texture(data.texture) {
            Some(target) => target,
            None => {
                return Err(UpdateError::UnknownTexture(data.texture));
            },
        };
        let length: usize = data.pixels.len();
        if data.color_type.buffer_size(data.width, data.height) != Some(length) {
            return Err(UpdateError::InvalidPixels(data.texture));
        }
        let right: bool = match data.offset_x.checked_add(data.width) {
            Some(right) => right <= target.width,
            None => false,
        };
        let bottom: bool = match data.offset_y.checked_add(data.height) {
            Some(bottom) => bottom <= target.height,
            None => false,
        };
        if !right || !bottom {
            return Err(UpdateError::OutOfBounds(data.texture));
        }
        Ok(())
    }

    /// Check that every graphic to draw has its texture.
    pub fn draw(&self, data: &RenderData) -> (done: Result<(), UpdateError>)
        ensures
            match first_unknown(self@, data@.vertices) {
                Some(texture) => done == Err::<(), UpdateError>(
                    UpdateError::UnknownTexture(texture),
                ),
                None => done.is_ok(),
            },
    {
        let mut i: usize = 0;
        while i < data.vertices.len()
            invariant
                i <= data.vertices@.len(),
                first_unknown(self@, data.vertices@.subrange(0, i as int)).is_none(),
            decreases data.vertices@.len() - i,
        {
            let name: u32 = data.vertices[i].texture_id;
            proof {
                let upto = data.vertices@.subrange(0, i + 1);
                assert(upto.drop_last() =~= data.vertices@.subrange(0, i as int));
                assert(upto.last() == data.vertices@[i as int]);
            }
            if self.texture(name).is_none() {
                proof {
                    lemma_first_unknown_stays(self@, data.vertices@, i + 1);
                }
                return Err(UpdateError::UnknownTexture(name));
            }
            i = i + 1;
        }
        proof {
            assert(data.vertices@.subrange(0, data.vertices@.len() as int) =~= data.vertices@);
        }
        Ok(())
    }

    /// Execute one command.
    pub fn run_update(&mut self, command: &GraphicsCommand) -> (done: Result<(), UpdateError>)
        ensures
            match executed(old(self)@, command@) {
                Ok(textures) => done.is_ok() && final(self)@ == textures,
                Err(error) => done == Err::<(), UpdateError>(error) && final(self)@ == old(self)@,
            },
    {
        match command {
            GraphicsCommand::DeleteTextures(textures) => {
                self.remove_graphics(textures);
                Ok(())
            },
            GraphicsCommand::InitTexture(texture, graphic) => self.upload_graphic(
                *texture,
                graphic,
            ),
            GraphicsCommand::ResizeTexture(data) => self.resize_texture(data),
            GraphicsCommand::BlitGraphic(data) => self.blit_graphic(data),
            GraphicsCommand::Render(data) => self.draw(data),
        }
    }

    /// Run the required actions to apply changes for the graphics in the grid.
    ///
    /// The commands are executed in their order. The first that cannot be
    /// executed ends the run: those before it stay executed, and those behind
    /// it are not looked at.
    pub fn run_updates(&mut self, commands: &Vec<GraphicsCommand>) -> (done: Result<
        (),
        UpdateFailure,
    >)
        ensures
            done.is_ok() ==> executed_all(old(self)@, batch(commands@)) == Some(final(self)@),
            done.is_err() ==> {
                let failure = done.unwrap_err();
                &&& failure.index < commands@.len()
                &&& executed_first(old(self)@, batch(commands@), failure.index as int) == Some(
                    final(self)@,
                )
                &&& executed(final(self)@, commands@[failure.index as int]@) == Err::<
                    Textures,
                    UpdateError,
                >(failure.error)
                &&& executed_all(old(self)@, batch(commands@)).is_none()
            },
    {
        let mut index: usize = 0;
        while index < commands.len()
            invariant
                index <= commands@.len(),
                executed_first(old(self)@, batch(commands@), index as int) == Some(self@),
            decreases commands@.len() - index,
        {
            match self.run_update(&commands[index]) {
                Ok(()) => {},
                Err(error) => {
                    proof {
                        lemma_executed_stops(
                            old(self)@,
                            batch(commands@),
                            index as int,
                            commands@.len() as int,
                        );
                    }
                    return Err(UpdateFailure { index, error });
                },
            }
            index = index + 1;
        }
        Ok(())
    }
}

/// A texture that is missing for some of the vertices is missing for all of
/// them.
proof fn lemma_first_unknown_stays(textures: Textures, vertices: Seq<Vertex>, count: int)
    requires
        0 <= count <= vertices.len(),
        first_unknown(textures, vertices.subrange(0, count)).is_some(),
    ensures
        first_unknown(textures, vertices) == first_unknown(textures, vertices.subrange(0, count)),
    decreases vertices.len() - count,
{
    if count < vertices.len() {
        let next = vertices.subrange(0, count + 1);
        assert(next.drop_last() =~= vertices.subrange(0, count));
        lemma_first_unknown_stays(textures, vertices, count + 1);
    } else {
        assert(vertices.subrange(0, count) =~= vertices);
    }
}

/// Commands that follow one that cannot be executed are not executed.
proof fn lemma_executed_stops(textures: Textures, commands: Seq<CommandView>, index: int, count: int)
    requires
        0 <= index < count <= commands.len(),
        executed_first(textures, commands, index).is_some(),
        executed(executed_first(textures, commands, index).unwrap(), commands[index]).is_err(),
    ensures
        executed_first(textures, commands, count).is_none(),
    decreases count - index,
{
    if index + 1 < count {
        lemma_executed_stops(textures, commands, index, count - 1);
    }
}

} // verus!
