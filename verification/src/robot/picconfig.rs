//! Where in the pictures the parts of the pieces are looked for.
use vstd::prelude::*;
use vstd::string::StringExecFns;
use crate::robot::partpiece::Shape;
use crate::text::{decimal, decimal_string};

verus! {

/// The places in the two pictures: the spots whose colour is read and the
/// areas in which lines are looked for.
pub struct PicConfig {
    pub spi: u8,
    pub usb_port: u8,
    pub line_classes: [i32; 6],
    pub spots_left_ud: [(u32, u32); 2],
    pub spots_left_side_e: [(u32, u32); 2],
    pub spots_left_side_cs: [(u32, u32); 2],
    pub spots_left_side_ce: [(u32, u32); 2],
    pub spots_right_ud: [(u32, u32); 2],
    pub spots_right_side_e: [(u32, u32); 2],
    pub spots_right_side_cs: [(u32, u32); 2],
    pub spots_right_side_ce: [(u32, u32); 2],
    pub spot_extra: (u32, u32),
    pub areas_left: [(u32, u32, u32, u32); 2],
    pub areas_right: [(u32, u32, u32, u32); 2],
    pub area_upper_slice: (u32, u32, u32, u32),
    pub area_lower_slice: (u32, u32, u32, u32),
}

impl PicConfig {
    /// The spot with the number `id` for a part of the given shape: the
    /// spots of the faces of the left layer, of its sides, of the faces and
    /// the sides of the right layer, and one more; none for a greater
    /// number.
    pub open spec fn spot(&self, id: int, shape: Shape) -> Option<(u32, u32)> {
        let index = id % 2;
        if id < 0 {
            None
        } else if id / 2 == 0 {
            Some(self.spots_left_ud@[index])
        } else if id / 2 == 1 {
            Some(
                match shape {
                    Shape::CornerStart => self.spots_left_side_cs@[index],
                    Shape::Edge => self.spots_left_side_e@[index],
                    Shape::CornerEnd => self.spots_left_side_ce@[index],
                },
            )
        } else if id / 2 == 2 {
            Some(self.spots_right_ud@[index])
        } else if id / 2 == 3 {
            Some(
                match shape {
                    Shape::CornerStart => self.spots_right_side_cs@[index],
                    Shape::Edge => self.spots_right_side_e@[index],
                    Shape::CornerEnd => self.spots_right_side_ce@[index],
                },
            )
        } else if id == 8 {
            Some(self.spot_extra)
        } else {
            None
        }
    }

    /// The area with the number `id`: the areas of the left layer, of the
    /// right layer, and of the slice above and below; none for a greater
    /// number.
    pub open spec fn area(&self, id: int) -> Option<(u32, u32, u32, u32)> {
        if id < 0 {
            None
        } else if id / 2 == 0 {
            Some(self.areas_left@[id % 2])
        } else if id / 2 == 1 {
            Some(self.areas_right@[id % 2])
        } else if id == 4 {
            Some(self.area_upper_slice)
        } else if id == 5 {
            Some(self.area_lower_slice)
        } else {
            None
        }
    }

    /// The path of the device that drives the lights.
    pub fn get_spi_path(&self) -> (path: String)
        ensures
            path@ == "/dev/spidev"@ + decimal(self.spi as nat) + ".0"@,
    {
        let mut path: String = String::from_str("/dev/spidev");
        let number: String = decimal_string(self.spi as u64);
        path.append(number.as_str());
        path.append(".0");
        path
    }

    /// The path of the device that the motors listen on.
    pub fn get_usb_path(&self) -> (path: String)
        ensures
            path@ == "/dev/ttyACM"@ + decimal(self.usb_port as nat),
    {
        let mut path: String = String::from_str("/dev/ttyACM");
        let number: String = decimal_string(self.usb_port as u64);
        path.append(number.as_str());
        path
    }

    /// The angles by which the lines of the shapes are told apart.
    pub fn get_line_classes(&self) -> (classes: [i32; 6])
        ensures
            classes == self.line_classes,
    {
        self.line_classes
    }

    /// The spot with the number `id` for a part of the given shape.
    pub fn get_spot(&self, id: usize, shape: Shape) -> (spot: Option<(u32, u32)>)
        ensures
            spot == self.spot(id as int, shape),
    {
        let field: usize = id / 2;
        let index: usize = id % 2;
        if field == 0 {
            Some(self.spots_left_ud[index])
        } else if field == 1 {
            Some(
                match shape {
                    Shape::CornerStart => self.spots_left_side_cs[index],
                    Shape::Edge => self.spots_left_side_e[index],
                    Shape::CornerEnd => self.spots_left_side_ce[index],
                },
            )
        } else if field == 2 {
            Some(self.spots_right_ud[index])
        } else if field == 3 {
            Some(
                match shape {
                    Shape::CornerStart => self.spots_right_side_cs[index],
                    Shape::Edge => self.spots_right_side_e[index],
                    Shape::CornerEnd => self.spots_right_side_ce[index],
                },
            )
        } else if field == 4 && index == 0 {
            Some(self.spot_extra)
        } else {
            None
        }
    }

    /// The area with the number `id`.
    pub fn get_area(&self, id: usize) -> (area: Option<(u32, u32, u32, u32)>)
        ensures
            area == self.area(id as int),
    {
        let field: usize = id / 2;
        let index: usize = id % 2;
        if field == 0 {
            Some(self.areas_left[index])
        } else if field == 1 {
            Some(self.areas_right[index])
        } else if field == 2 {
            if index == 0 {
                Some(self.area_upper_slice)
            } else {
                Some(self.area_lower_slice)
            }
        } else {
            None
        }
    }
}

} // verus!
