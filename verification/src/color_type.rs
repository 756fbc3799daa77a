use vstd::prelude::*;

verus! {

/// Layout of one color sample in a raster byte stream.
pub enum ColorType {
    RGB,
    RGBA,
}

impl ColorType {
    /// How many bytes one color sample occupies.
    pub fn bytes_per_color(&self) -> (n: i32)
        ensures
            n == match *self {
                ColorType::RGB => 3int,
                ColorType::RGBA => 4int,
            },
    {
        match self {
            ColorType::RGB => 3,
            ColorType::RGBA => 4,
        }
    }
}

} // verus!
