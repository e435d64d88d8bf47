//! What a camera sees of a piece at one spot: a corner shows as two parts,
//! an edge as one.
use vstd::prelude::*;

verus! {

/// What a part is of: the first or the second half of a corner, or an edge.
#[derive(Clone, Copy, Debug, PartialEq, Eq, Structural)]
pub enum Shape {
    CornerStart,
    Edge,
    CornerEnd,
}

/// The colour of the face of a part.
#[derive(Clone, Copy, Debug, PartialEq, Eq, Structural)]
pub enum UDColor {
    Black,
    White,
}

/// The colour of the side of a part.
#[derive(Clone, Copy, Debug, PartialEq, Eq, Structural)]
pub enum SideColor {
    Red,
    Blue,
    Orange,
    Green,
}

/// A part of a piece as it was detected.
#[derive(Clone, Copy, Debug, PartialEq, Eq, Structural)]
pub struct PartPiece {
    pub shape: Shape,
    pub udcolor: UDColor,
    pub sidecolor: SideColor,
}

/// The side colour that follows `color` around the puzzle, or the one before
/// it.
pub open spec fn neighbour(color: SideColor, next: bool) -> SideColor {
    match color {
        SideColor::Red => if next {
            SideColor::Blue
        } else {
            SideColor::Green
        },
        SideColor::Blue => if next {
            SideColor::Orange
        } else {
            SideColor::Red
        },
        SideColor::Orange => if next {
            SideColor::Green
        } else {
            SideColor::Blue
        },
        SideColor::Green => if next {
            SideColor::Red
        } else {
            SideColor::Orange
        },
    }
}

/// The other half of the corner that a part belongs to; an edge has none.
pub open spec fn adjacent(part: PartPiece, left: bool) -> Option<PartPiece> {
    match part.shape {
        Shape::Edge => None,
        Shape::CornerStart => Some(
            PartPiece {
                shape: Shape::CornerEnd,
                udcolor: part.udcolor,
                sidecolor: neighbour(part.sidecolor, (part.udcolor == UDColor::Black) == left),
            },
        ),
        Shape::CornerEnd => Some(
            PartPiece {
                shape: Shape::CornerStart,
                udcolor: part.udcolor,
                sidecolor: neighbour(part.sidecolor, (part.udcolor != UDColor::Black) == left),
            },
        ),
    }
}

/// The place of a side colour in the order red, blue, orange, green.
pub open spec fn side_rank(color: SideColor) -> int {
    match color {
        SideColor::Red => 0,
        SideColor::Blue => 1,
        SideColor::Orange => 2,
        SideColor::Green => 3,
    }
}

/// The piece that a part names; the second half of a corner names none.
pub open spec fn piece_of(part: PartPiece, left: bool) -> Option<u8> {
    match part.shape {
        Shape::CornerEnd => None,
        Shape::Edge => Some(
            match part.udcolor {
                UDColor::Black => ((2 * side_rank(part.sidecolor) + 7) % 8) as u8,
                UDColor::White => ((2 * (side_rank(part.sidecolor) + 1)) % 8 + 9) as u8,
            },
        ),
        Shape::CornerStart => Some(
            match part.udcolor {
                UDColor::Black => ((2 * side_rank(part.sidecolor) + if left {
                    0int
                } else {
                    6int
                }) % 8) as u8,
                UDColor::White => ((2 * side_rank(part.sidecolor) + if left {
                    2int
                } else {
                    4int
                }) % 8 + 8) as u8,
            },
        ),
    }
}

impl Shape {
    /// The name of the shape.
    pub fn name(&self) -> (text: &'static str)
        ensures
            text@ == match self {
                Shape::CornerStart => "corner start"@,
                Shape::Edge => "edge"@,
                Shape::CornerEnd => "corner end"@,
            },
    {
        match self {
            Shape::CornerStart => "corner start",
            Shape::Edge => "edge",
            Shape::CornerEnd => "corner end",
        }
    }
}

impl UDColor {
    /// The name of the colour.
    pub fn name(&self) -> (text: &'static str)
        ensures
            text@ == match self {
                UDColor::Black => "black"@,
                UDColor::White => "white"@,
            },
    {
        match self {
            UDColor::Black => "black",
            UDColor::White => "white",
        }
    }
}

impl SideColor {
    /// The name of the colour.
    pub fn name(&self) -> (text: &'static str)
        ensures
            text@ == match self {
                SideColor::Red => "red"@,
                SideColor::Blue => "blue"@,
                SideColor::Orange => "orange"@,
                SideColor::Green => "green"@,
            },
    {
        match self {
            SideColor::Red => "red",
            SideColor::Blue => "blue",
            SideColor::Orange => "orange",
            SideColor::Green => "green",
        }
    }
}

impl PartPiece {
    /// The other half of the corner that the part belongs to, as it shows
    /// in the left or in the right layer; an edge has none.
    pub fn get_adj(&self, left: bool) -> (adj: Option<Self>)
        ensures
            adj == adjacent(*self, left),
    {
        let swap: bool = (match self.shape {
            Shape::CornerStart => true,
            Shape::Edge => {
                return None;
            },
            Shape::CornerEnd => false,
        } == match self.udcolor {
            UDColor::Black => true,
            UDColor::White => false,
        }) == left;
        let adj_sidecolor: SideColor = match self.sidecolor {
            SideColor::Red => if swap {
                SideColor::Blue
            } else {
                SideColor::Green
            },
            SideColor::Blue => if swap {
                SideColor::Orange
            } else {
                SideColor::Red
            },
            SideColor::Orange => if swap {
                SideColor::Green
            } else {
                SideColor::Blue
            },
            SideColor::Green => if swap {
                SideColor::Red
            } else {
                SideColor::Orange
            },
        };
        Some(
            PartPiece {
                shape: match self.shape {
                    Shape::CornerStart => Shape::CornerEnd,
                    Shape::Edge => {
                        return None;
                    },
                    Shape::CornerEnd => Shape::CornerStart,
                },
                udcolor: match self.udcolor {
                    UDColor::Black => UDColor::Black,
                    UDColor::White => UDColor::White,
                },
                sidecolor: adj_sidecolor,
            },
        )
    }

    /// The piece that the part names, as it shows in the left or in the
    /// right layer; the second half of a corner names none.
    pub fn get_id(&self, left: bool) -> (id: Option<u8>)
        ensures
            id == piece_of(*self, left),
            id matches Some(piece) ==> piece < 16,
    {
        match self.shape {
            Shape::CornerStart => {
                match self.udcolor {
                    UDColor::Black => {
                        match self.sidecolor {
                            SideColor::Red => if left {
                                Some(0)
                            } else {
                                Some(6)
                            },
                            SideColor::Blue => if left {
                                Some(2)
                            } else {
                                Some(0)
                            },
                            SideColor::Orange => if left {
                                Some(4)
                            } else {
                                Some(2)
                            },
                            SideColor::Green => if left {
                                Some(6)
                            } else {
                                Some(4)
                            },
                        }
                    },
                    UDColor::White => {
                        match self.sidecolor {
                            SideColor::Red => if left {
                                Some(10)
                            } else {
                                Some(12)
                            },
                            SideColor::Blue => if left {
                                Some(12)
                            } else {
                                Some(14)
                            },
                            SideColor::Orange => if left {
                                Some(14)
                            } else {
                                Some(8)
                            },
                            SideColor::Green => if left {
                                Some(8)
                            } else {
                                Some(10)
                            },
                        }
                    },
                }
            },
            Shape::Edge => {
                match self.udcolor {
                    UDColor::Black => {
                        match self.sidecolor {
                            SideColor::Red => Some(7),
                            SideColor::Blue => Some(1),
                            SideColor::Orange => Some(3),
                            SideColor::Green => Some(5),
                        }
                    },
                    UDColor::White => {
                        match self.sidecolor {
                            SideColor::Red => Some(11),
                            SideColor::Blue => Some(13),
                            SideColor::Orange => Some(15),
                            SideColor::Green => Some(9),
                        }
                    },
                }
            },
            Shape::CornerEnd => None,
        }
    }
}

} // verus!
