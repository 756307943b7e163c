//! What draw commands are made of that the library holds: texture ids, and
//! the byte view of plain data handed to the renderer.

use vstd::prelude::*;

use crate::paltex::common::{Color, Header};

verus! {

/// The id of a texture the runtime has loaded, as draw commands name it.
#[derive(Debug, Clone, Copy)]
pub struct TextureID(pub u64);

/// Data handed to the renderer, or written to a file, as its bytes.
pub trait AsBytes {
    /// The bytes of the value.
    spec fn spec_as_bytes(&self) -> Seq<u8>;

    fn as_bytes(&self) -> (b: Vec<u8>)
        ensures
            b@ == self.spec_as_bytes(),
    ;
}

impl AsBytes for u8 {
    open spec fn spec_as_bytes(&self) -> Seq<u8> {
        seq![*self]
    }

    fn as_bytes(&self) -> (b: Vec<u8>) {
        let mut b: Vec<u8> = Vec::new();
        b.push(*self);
        assert(b@ =~= seq![*self]);
        b
    }
}

impl AsBytes for Color {
    open spec fn spec_as_bytes(&self) -> Seq<u8> {
        self.spec_bytes()
    }

    fn as_bytes(&self) -> (b: Vec<u8>) {
        let rgba = self.to_rgba_u8();
        let mut b: Vec<u8> = Vec::new();
        b.push(rgba[0]);
        b.push(rgba[1]);
        b.push(rgba[2]);
        b.push(rgba[3]);
        assert(b@ =~= self.spec_bytes());
        b
    }
}

impl AsBytes for Header {
    open spec fn spec_as_bytes(&self) -> Seq<u8> {
        self.spec_bytes()
    }

    fn as_bytes(&self) -> (b: Vec<u8>) {
        self.to_bytes()
    }
}

} // verus!
