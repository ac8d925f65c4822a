//! Core data types shared by the search pipeline.

use vstd::prelude::*;

verus! {

/// A contiguous region of a source file corresponding to one syntactic
/// construct. Rows are 0-based and inclusive; bytes are offsets into the file.
#[derive(Clone, Debug)]
pub struct CodeBlock {
    pub start_row: usize,
    pub end_row: usize,
    pub start_byte: usize,
    pub end_byte: usize,
    pub node_type: String,
}

/// The mathematical value of a `CodeBlock`: its extents and the node kind as
/// a character sequence.
pub ghost struct BlockModel {
    pub start_row: int,
    pub end_row: int,
    pub start_byte: int,
    pub end_byte: int,
    pub node_type: Seq<char>,
}

impl CodeBlock {
    pub open spec fn model(self) -> BlockModel {
        BlockModel {
            start_row: self.start_row as int,
            end_row: self.end_row as int,
            start_byte: self.start_byte as int,
            end_byte: self.end_byte as int,
            node_type: self.node_type@,
        }
    }

    /// Basic well-formedness: ordered extents and a named node kind.
    pub open spec fn wf(self) -> bool {
        self.model().wf()
    }
}

impl BlockModel {
    pub open spec fn wf(self) -> bool {
        &&& 0 <= self.start_row <= self.end_row
        &&& 0 <= self.start_byte <= self.end_byte
        &&& self.node_type.len() > 0
    }
}

/// The models of a sequence of blocks, in order.
pub open spec fn models_of(s: Seq<CodeBlock>) -> Seq<BlockModel> {
    s.map_values(|b: CodeBlock| b.model())
}

} // verus!
