use vstd::prelude::*;

verus! {

/// One block placed on the grid.
#[derive(Clone, Copy, Debug, PartialEq, Eq, Structural)]
pub struct PlacedBlock {
    /// Index into the block-name table; the decoder does not check its range.
    pub name_index: u8,
    pub position: u16,
    pub config: u16,
    pub rotation: u8,
}

/// What a payload describes, as mathematical values.
pub struct SchematicBody {
    pub width: int,
    pub height: int,
    pub tags: Seq<(Seq<char>, Seq<char>)>,
    pub block_names: Seq<Seq<char>>,
    pub placed_blocks: Seq<PlacedBlock>,
}

/// A decoded schematic file.
#[derive(Debug)]
pub struct Container {
    /// The four leading bytes, taken as they are.
    pub magic: Vec<u8>,
    /// The three bytes of the version marker, taken as they are.
    pub version: Vec<u8>,
    pub width: i32,
    pub height: i32,
    pub tag_count: u8,
    /// (label, content) pairs in file order.
    pub tags: Vec<(String, String)>,
    pub block_name_count: u8,
    pub block_names: Vec<String>,
    pub placed_block_count: u8,
    pub placed_blocks: Vec<PlacedBlock>,
}

pub open spec fn tag_view(t: (String, String)) -> (Seq<char>, Seq<char>) {
    (t.0@, t.1@)
}

pub open spec fn string_view(s: String) -> Seq<char> {
    s@
}

impl Container {
    /// The payload part of the container as mathematical values.
    pub open spec fn body(&self) -> SchematicBody {
        SchematicBody {
            width: self.width as int,
            height: self.height as int,
            tags: self.tags@.map_values(|t: (String, String)| tag_view(t)),
            block_names: self.block_names@.map_values(|s: String| string_view(s)),
            placed_blocks: self.placed_blocks@,
        }
    }

    /// Each count agrees with the table that it announces, and the header
    /// fields have their fixed widths.
    pub open spec fn wf(&self) -> bool {
        &&& self.magic@.len() == 4
        &&& self.version@.len() == 3
        &&& self.tags@.len() == self.tag_count as int
        &&& self.block_names@.len() == self.block_name_count as int
        &&& self.placed_blocks@.len() == self.placed_block_count as int
    }

}

} // verus!
