use vstd::prelude::*;
use std::collections::HashMap;
use crate::colors::Color;
use crate::textures::Texture;

verus! {

/// The textures that materials refer to, each under a number.
pub struct Textures {
    textures: HashMap<usize, Texture>,
}

impl View for Textures {
    type V = Map<usize, Seq<Seq<Color>>>;

    closed spec fn view(&self) -> Map<usize, Seq<Seq<Color>>> {
        self.textures@.map_values(|texture: Texture| texture@)
    }
}

impl Textures {
    /// No textures.
    pub fn new() -> (table: Textures)
        ensures
            table@ == Map::<usize, Seq<Seq<Color>>>::empty(),
    {
        let table = Textures { textures: HashMap::new() };
        assert(table@ =~= Map::<usize, Seq<Seq<Color>>>::empty());
        table
    }

    /// Puts `texture` under the number `index`, in place of what was there.
    pub fn set_texture(&mut self, index: usize, texture: Texture)
        ensures
            final(self)@ == old(self)@.insert(index, texture@),
    {
        self.textures.insert(index, texture);
        assert(self@ =~= old(self)@.insert(index, texture@));
    }

    /// The texture of a material that names `index`: none where the material
    /// names none, and none where nothing stands under that number.
    pub fn texture(&self, index: Option<usize>) -> (found: Option<&Texture>)
        ensures
            match found {
                Some(texture) => index matches Some(i) && self@.contains_key(i) && texture@
                    == self@[i],
                None => index matches Some(i) ==> !self@.contains_key(i),
            },
    {
        match index {
            Some(i) => self.textures.get(&i),
            None => None,
        }
    }
}

} // verus!
