//! Finding tags in the containment tree: the families of tags, the parts
//! that a tag is made of, and the walks that pick them out of the tree.

use crate::segmentation::FeatureVector;
use vstd::prelude::*;

pub use crate::decode::lftag::detect_lftag;
pub use crate::decode::table::TagMap;
pub use crate::decode::topotag::detect_topotag;

pub mod bits;
pub mod laws;
pub mod lftag;
pub mod strength;
pub mod table;
pub mod topotag;
pub mod walk;

verus! {

/// The sizes of tags whose data lies in the shape of the tree.
#[derive(Debug, Clone, Copy, PartialEq, Eq, Structural)]
pub enum TopotagClass {
    Topotag3x3,
    Topotag4x4,
    Topotag5x5,
}

impl TopotagClass {
    /// The number of nodes that carry a bit.
    pub open spec fn normal_nodes(self) -> nat {
        match self {
            TopotagClass::Topotag3x3 => 7,
            TopotagClass::Topotag4x4 => 14,
            TopotagClass::Topotag5x5 => 23,
        }
    }

    /// The number of nodes: those that carry a bit, and the baseline.
    pub open spec fn total_nodes(self) -> nat {
        self.normal_nodes() + 1
    }

    /// The number of rows, which is also the number of columns.
    pub open spec fn side(self) -> nat {
        match self {
            TopotagClass::Topotag3x3 => 3,
            TopotagClass::Topotag4x4 => 4,
            TopotagClass::Topotag5x5 => 5,
        }
    }

    pub fn normal_node_count(&self) -> (n: usize)
        ensures
            n == self.normal_nodes(),
    {
        match self {
            TopotagClass::Topotag3x3 => 7,
            TopotagClass::Topotag4x4 => 14,
            TopotagClass::Topotag5x5 => 23,
        }
    }

    pub fn total_node_count(&self) -> (n: usize)
        ensures
            n == self.total_nodes(),
    {
        self.normal_node_count() + 1
    }

    pub fn get_height(&self) -> (n: usize)
        ensures
            n == self.side(),
    {
        match self {
            TopotagClass::Topotag3x3 => 3,
            TopotagClass::Topotag4x4 => 4,
            TopotagClass::Topotag5x5 => 5,
        }
    }

    pub fn get_width(&self) -> (n: usize)
        ensures
            n == self.side(),
    {
        match self {
            TopotagClass::Topotag3x3 => 3,
            TopotagClass::Topotag4x4 => 4,
            TopotagClass::Topotag5x5 => 5,
        }
    }
}

/// The sizes of tags whose data lies in the places of their dots.
#[derive(Debug, Clone, Copy, PartialEq, Eq, Structural)]
pub enum LFTagClass {
    LFTag2x2,
    LFTag3x3,
    LFTag4x4,
    LFTag5x5,
}

impl LFTagClass {
    /// The number of dots that carry data.
    pub open spec fn data_nodes(self) -> nat {
        match self {
            LFTagClass::LFTag2x2 => 2,
            LFTagClass::LFTag3x3 => 7,
            LFTagClass::LFTag4x4 => 14,
            LFTagClass::LFTag5x5 => 23,
        }
    }

    /// The number of dots: those that carry data, and the two of the
    /// baseline.
    pub open spec fn total_nodes(self) -> nat {
        self.data_nodes() + 2
    }

    /// The number of rows, which is also the number of columns.
    pub open spec fn side(self) -> nat {
        match self {
            LFTagClass::LFTag2x2 => 2,
            LFTagClass::LFTag3x3 => 3,
            LFTagClass::LFTag4x4 => 4,
            LFTagClass::LFTag5x5 => 5,
        }
    }

    pub fn data_node_count(&self) -> (n: usize)
        ensures
            n == self.data_nodes(),
    {
        match self {
            LFTagClass::LFTag2x2 => 2,
            LFTagClass::LFTag3x3 => 7,
            LFTagClass::LFTag4x4 => 14,
            LFTagClass::LFTag5x5 => 23,
        }
    }

    pub fn total_node_count(&self) -> (n: usize)
        ensures
            n == self.total_nodes(),
    {
        self.data_node_count() + 2
    }

    pub fn get_height(&self) -> (n: usize)
        ensures
            n == self.side(),
    {
        match self {
            LFTagClass::LFTag2x2 => 2,
            LFTagClass::LFTag3x3 => 3,
            LFTagClass::LFTag4x4 => 4,
            LFTagClass::LFTag5x5 => 5,
        }
    }

    pub fn get_width(&self) -> (n: usize)
        ensures
            n == self.side(),
    {
        self.get_height()
    }

    /// The length of a side of the tag in world units: six to a cell, and a
    /// margin of half a cell on each side.
    pub fn get_pix_size(&self) -> (n: usize)
        ensures
            n == (self.side() + 1) * 6,
    {
        (self.get_height() + 1) * 6
    }
}

/// What a component of the tree is to a topological tag.
#[derive(Debug, PartialEq)]
#[allow(inconsistent_fields)]
pub enum TopotagComponents {
    /// The frame of a tag: its baseline first, then the nodes that carry a
    /// bit.
    Root { nodes: Vec<TopotagComponents>, class: TopotagClass },
    /// No part of a tag.
    Nothing,
    /// The node that holds the two dots of the baseline.
    Baseline { nodes: [FeatureVector; 2] },
    /// A node that carries a bit: it holds a dot, or none.
    Normal { data: bool, node: FeatureVector },
}

/// A node of a topological tag, as a value.
pub enum TopoLeaf {
    Baseline { first: FeatureVector, second: FeatureVector },
    Normal { data: bool, node: FeatureVector },
    Other,
}

/// A part of a topological tag, as a value.
pub enum TopoShape {
    Root { nodes: Seq<TopoLeaf>, class: TopotagClass },
    /// No part of a tag.
    Nothing,
    Baseline { first: FeatureVector, second: FeatureVector },
    Normal { data: bool, node: FeatureVector },
}

impl TopotagComponents {
    pub open spec fn leaf(self) -> TopoLeaf {
        match self {
            TopotagComponents::Baseline { nodes } => TopoLeaf::Baseline { first: nodes[0], second: nodes[1] },
            TopotagComponents::Normal { data, node } => TopoLeaf::Normal { data, node },
            _ => TopoLeaf::Other,
        }
    }

    /// The part as a value. A root is given by its nodes: an entry of a
    /// root that is no node stands as `Other`, whatever it holds.
    pub open spec fn shape(self) -> TopoShape {
        match self {
            TopotagComponents::Root { nodes, class } => TopoShape::Root {
                nodes: nodes@.map_values(|c: TopotagComponents| c.leaf()),
                class,
            },
            TopotagComponents::Nothing => TopoShape::Nothing,
            TopotagComponents::Baseline { nodes } => TopoShape::Baseline { first: nodes[0], second: nodes[1] },
            TopotagComponents::Normal { data, node } => TopoShape::Normal { data, node },
        }
    }

    /// A copy of a node; what is no node comes out as `Nothing`.
    pub fn copy_leaf(&self) -> (r: TopotagComponents)
        ensures
            r.leaf() == self.leaf(),
            !(r is Root),
    {
        match self {
            TopotagComponents::Baseline { nodes } => TopotagComponents::Baseline { nodes: [nodes[0], nodes[1]] },
            TopotagComponents::Normal { data, node } => TopotagComponents::Normal { data: *data, node: *node },
            _ => TopotagComponents::Nothing,
        }
    }

    /// A copy with the same parts: of a root, its class and its nodes.
    pub fn duplicate(&self) -> (r: TopotagComponents)
        ensures
            r.shape() == self.shape(),
    {
        match self {
            TopotagComponents::Root { nodes, class } => {
                let mut copies: Vec<TopotagComponents> = Vec::new();
                let mut i: usize = 0;
                while i < nodes.len()
                    invariant
                        i <= nodes.len(),
                        copies.len() == i,
                        forall|j: int| 0 <= j < i ==> (#[trigger] copies[j]).leaf() == nodes[j].leaf(),
                    decreases nodes.len() - i,
                {
                    copies.push(nodes[i].copy_leaf());
                    i = i + 1;
                }
                assert(copies@.map_values(|c: TopotagComponents| c.leaf()) =~= nodes@.map_values(
                    |c: TopotagComponents| c.leaf(),
                ));
                TopotagComponents::Root { nodes: copies, class: *class }
            },
            TopotagComponents::Nothing => TopotagComponents::Nothing,
            TopotagComponents::Baseline { nodes } => TopotagComponents::Baseline { nodes: [nodes[0], nodes[1]] },
            TopotagComponents::Normal { data, node } => TopotagComponents::Normal { data: *data, node: *node },
        }
    }
}

/// What a component of the tree is to a tag of dots.
#[derive(Debug, PartialEq)]
#[allow(inconsistent_fields)]
pub enum LFTagComponents {
    /// The quadrilateral of a tag, with its dots.
    Root { nodes: Vec<LFTagComponents>, bg: FeatureVector, class: LFTagClass },
    /// No part of a tag.
    Nothing,
    /// A dot.
    Normal { node: FeatureVector },
    Baseline { node: FeatureVector },
}

/// A part of a tag of dots, as a value. A root is given by its dots.
pub enum LFShape {
    Root { nodes: Seq<Option<FeatureVector>>, bg: FeatureVector, class: LFTagClass },
    /// No part of a tag.
    Nothing,
    Normal { node: FeatureVector },
    Baseline { node: FeatureVector },
}

impl LFTagComponents {
    /// The component of a dot.
    pub open spec fn dot(self) -> Option<FeatureVector> {
        match self {
            LFTagComponents::Normal { node } => Some(node),
            _ => None,
        }
    }

    /// The part as a value. A root is given by its dots: an entry of a root
    /// that is no dot stands as `None`, whatever it holds.
    pub open spec fn shape(self) -> LFShape {
        match self {
            LFTagComponents::Root { nodes, bg, class } => LFShape::Root {
                nodes: nodes@.map_values(|c: LFTagComponents| c.dot()),
                bg,
                class,
            },
            LFTagComponents::Nothing => LFShape::Nothing,
            LFTagComponents::Normal { node } => LFShape::Normal { node },
            LFTagComponents::Baseline { node } => LFShape::Baseline { node },
        }
    }
}

} // verus!
