use vstd::prelude::*;

verus! {

/// A model named in a scene: the file it comes from and, once loaded, the
/// indices of the models read from it.
#[derive(Clone, Debug)]
pub struct ModelDeclaration {
    pub filepath: String,
    pub is_loaded: bool,
    pub loaded_models: Vec<usize>,
}

impl ModelDeclaration {
    pub fn new(filepath: String) -> (d: ModelDeclaration)
        ensures
            d.filepath@ == filepath@,
            !d.is_loaded,
            d.loaded_models@.len() == 0,
    {
        ModelDeclaration { filepath, is_loaded: false, loaded_models: Vec::new() }
    }

    pub fn mark_loaded(&mut self, models: Vec<usize>)
        ensures
            final(self).filepath@ == old(self).filepath@,
            final(self).is_loaded,
            final(self).loaded_models@ == models@,
    {
        self.loaded_models = models;
        self.is_loaded = true;
    }
}

} // verus!
