//! Choosing a region of the screen with two clicks and cutting it out of a
//! captured frame.

use vstd::prelude::*;

verus! {

/// A place on the screen.
#[derive(Clone, Copy, Debug, PartialEq, Eq, Structural)]
pub struct Point {
    pub x: i32,
    pub y: i32,
}

/// A rectangle of pixels: from `x_min` to `x_max` and from `y_min` to
/// `y_max`, the upper bounds left out.
#[derive(Clone, Copy, Debug, PartialEq, Eq, Structural)]
pub struct Region {
    pub x_min: i32,
    pub y_min: i32,
    pub x_max: i32,
    pub y_max: i32,
}

impl Region {
    /// The number of pixel columns; none if the bounds are out of order.
    pub open spec fn columns(self) -> int {
        if self.x_max > self.x_min {
            self.x_max - self.x_min
        } else {
            0
        }
    }

    /// The number of pixel rows; none if the bounds are out of order.
    pub open spec fn rows(self) -> int {
        if self.y_max > self.y_min {
            self.y_max - self.y_min
        } else {
            0
        }
    }

    /// The rectangle between two opposite corners, whichever of them comes
    /// first.
    pub open spec fn between(a: Point, b: Point) -> Region {
        Region {
            x_min: if a.x <= b.x { a.x } else { b.x },
            y_min: if a.y <= b.y { a.y } else { b.y },
            x_max: if a.x <= b.x { b.x } else { a.x },
            y_max: if a.y <= b.y { b.y } else { a.y },
        }
    }

    /// The rectangle between two opposite corners, whichever of them comes
    /// first.
    pub fn spanning(a: Point, b: Point) -> (region: Region)
        ensures
            region == Region::between(a, b),
    {
        let (x_min, x_max) = if a.x <= b.x {
            (a.x, b.x)
        } else {
            (b.x, a.x)
        };
        let (y_min, y_max) = if a.y <= b.y {
            (a.y, b.y)
        } else {
            (b.y, a.y)
        };
        Region { x_min, y_min, x_max, y_max }
    }

    /// The number of pixel columns.
    pub fn width(&self) -> (w: u32)
        ensures
            w == self.columns(),
    {
        if self.x_max > self.x_min {
            (self.x_max as i64 - self.x_min as i64) as u32
        } else {
            0
        }
    }

    /// The number of pixel rows.
    pub fn height(&self) -> (h: u32)
        ensures
            h == self.rows(),
    {
        if self.y_max > self.y_min {
            (self.y_max as i64 - self.y_min as i64) as u32
        } else {
            0
        }
    }
}

/// Where the pixel `(x, y)` starts in a frame of four bytes a pixel and
/// `stride` bytes a row.
pub open spec fn pixel_start(stride: int, x: int, y: int) -> int {
    y * stride + 4 * x
}

/// One byte of the pixel `(x, y)` of a frame: the frame's byte if the frame
/// holds the whole pixel, else 0.
pub open spec fn frame_byte(frame: Seq<u8>, stride: int, x: int, y: int, channel: int) -> u8 {
    if x >= 0 && y >= 0 && pixel_start(stride, x, y) + 3 < frame.len() {
        frame[pixel_start(stride, x, y) + channel]
    } else {
        0
    }
}

/// Whether `pixels` is the region cut out of the frame: four bytes a pixel,
/// row by row, each byte the frame's byte at that place.
pub open spec fn is_cut(frame: Seq<u8>, stride: int, region: Region, pixels: Seq<u8>) -> bool {
    &&& pixels.len() == 4 * region.columns() * region.rows()
    &&& forall|row: int, col: int, channel: int|
        0 <= row < region.rows() && 0 <= col < region.columns() && 0 <= channel < 4
            ==> #[trigger] pixels[4 * (row * region.columns() + col) + channel] == frame_byte(
            frame,
            stride,
            region.x_min + col,
            region.y_min + row,
            channel,
        )
}

/// Cuts a region out of a frame of four bytes a pixel and `stride` bytes a
/// row. A pixel that the frame does not hold comes out as four zero bytes.
pub fn crop(frame: &[u8], stride: usize, region: &Region) -> (pixels: Vec<u8>)
    requires
        4 * region.columns() * region.rows() <= usize::MAX,
    ensures
        is_cut(frame@, stride as int, *region, pixels@),
{
    let w = region.width();
    let h = region.height();
    let mut pixels: Vec<u8> = Vec::new();
    let mut row: u32 = 0;
    while row < h
        invariant
            row <= h,
            w == region.columns(),
            h == region.rows(),
            pixels@.len() == 4 * (row * w),
            forall|r: int, c: int, channel: int|
                0 <= r < row && 0 <= c < w && 0 <= channel < 4 ==> #[trigger] pixels@[4 * (r * w
                    + c) + channel] == frame_byte(
                    frame@,
                    stride as int,
                    region.x_min + c,
                    region.y_min + r,
                    channel,
                ),
        decreases h - row,
    {
        let mut col: u32 = 0;
        while col < w
            invariant
                row < h,
                col <= w,
                w == region.columns(),
                h == region.rows(),
                pixels@.len() == 4 * (row * w + col),
                forall|r: int, c: int, channel: int|
                    (0 <= r < row && 0 <= c < w || r == row && 0 <= c < col) && 0 <= channel < 4
                        ==> #[trigger] pixels@[4 * (r * w + c) + channel] == frame_byte(
                        frame@,
                        stride as int,
                        region.x_min + c,
                        region.y_min + r,
                        channel,
                    ),
            decreases w - col,
        {
            let x: i64 = region.x_min as i64 + col as i64;
            let y: i64 = region.y_min as i64 + row as i64;
            let ghost before = pixels@;
            let mut bytes: [u8; 4] = [0, 0, 0, 0];
            if x >= 0 && y >= 0 {
                assert((y as u128) * (stride as u128) <= 0x8000_0000 * 0xFFFF_FFFF_FFFF_FFFF)
                    by (nonlinear_arith)
                    requires
                        0 <= y < 0x8000_0000,
                        stride <= 0xFFFF_FFFF_FFFF_FFFF,
                ;
                let start: u128 = (y as u128) * (stride as u128) + 4 * (x as u128);
                assert(start == pixel_start(stride as int, x as int, y as int));
                if start + 3 < frame.len() as u128 {
                    let at = start as usize;
                    bytes = [frame[at], frame[at + 1], frame[at + 2], frame[at + 3]];
                }
            }
            pixels.push(bytes[0]);
            pixels.push(bytes[1]);
            pixels.push(bytes[2]);
            pixels.push(bytes[3]);
            proof {
                assert forall|channel: int| 0 <= channel < 4 implies bytes@[channel] == frame_byte(
                    frame@,
                    stride as int,
                    region.x_min + col,
                    region.y_min + row,
                    channel,
                ) by {}
                assert forall|r: int, c: int, channel: int|
                    (0 <= r < row && 0 <= c < w || r == row && 0 <= c < col + 1) && 0 <= channel
                        < 4 implies #[trigger] pixels@[4 * (r * w + c) + channel] == frame_byte(
                    frame@,
                    stride as int,
                    region.x_min + c,
                    region.y_min + r,
                    channel,
                ) by {
                    if r == row && c == col {
                        assert(pixels@[4 * (r * w + c) + channel] == bytes@[channel]);
                    } else {
                        assert(r * w + c < row * w + col) by (nonlinear_arith)
                            requires
                                0 <= r < row && 0 <= c < w || r == row && 0 <= c < col,
                                0 <= col < w,
                        ;
                        assert(pixels@[4 * (r * w + c) + channel] == before[4 * (r * w + c)
                            + channel]);
                    }
                }
                assert(4 * (row * w + col) + 4 == 4 * (row * w + (col + 1)));
            }
            col = col + 1;
        }
        proof {
            assert(4 * (row * w + w) == 4 * ((row + 1) * w)) by (nonlinear_arith);
        }
        row = row + 1;
    }
    proof {
        assert(4 * (h * w) == 4 * region.columns() * region.rows()) by (nonlinear_arith)
            requires
                w == region.columns(),
                h == region.rows(),
        ;
    }
    pixels
}

/// What the pointer does, as far as choosing a region goes.
#[derive(Clone, Copy, Debug, PartialEq, Eq, Structural)]
pub enum PointerEvent {
    /// The pointer moved to a place on the screen.
    Moved { x: i32, y: i32 },
    /// The left button went down.
    LeftPressed,
    /// Anything else.
    Other,
}

/// The choice of a region by two clicks of the left button: the place of
/// the pointer is followed, and each click marks a corner there.
#[derive(Clone, Copy, Debug, PartialEq, Eq, Structural)]
pub struct Selection {
    /// Where the pointer was last seen.
    pub position: Point,
    /// The first corner, once it is marked.
    pub first: Option<Point>,
    /// The second corner, once it is marked.
    pub second: Option<Point>,
}

impl Selection {
    /// What an event makes of a selection: a move is followed; a click marks
    /// the first corner, or the second if the first is marked, at the place
    /// where the pointer was last seen; anything else, and any click after
    /// the second, changes nothing.
    pub open spec fn after(self, event: PointerEvent) -> Selection {
        match event {
            PointerEvent::Moved { x, y } => Selection { position: Point { x, y }, ..self },
            PointerEvent::LeftPressed => if self.first is None {
                Selection { first: Some(self.position), ..self }
            } else if self.second is None {
                Selection { second: Some(self.position), ..self }
            } else {
                self
            },
            PointerEvent::Other => self,
        }
    }

    /// A selection with the pointer at the origin and no corner marked.
    pub fn new() -> (selection: Selection)
        ensures
            selection.position == (Point { x: 0, y: 0 }),
            selection.first is None,
            selection.second is None,
    {
        Selection { position: Point { x: 0, y: 0 }, first: None, second: None }
    }

    /// The region to capture when an event comes in: the click that marks
    /// the second corner gives the region between the two corners; no other
    /// event gives one.
    pub open spec fn captures(self, event: PointerEvent) -> Option<Region> {
        if event == PointerEvent::LeftPressed && self.first is Some && self.second is None {
            Some(Region::between(self.first->0, self.position))
        } else {
            None
        }
    }

    /// Takes an event in. Returns the region to capture when this event
    /// marks the second corner, and `None` for every other event.
    pub fn on_event(&mut self, event: PointerEvent) -> (capture: Option<Region>)
        ensures
            *final(self) == old(self).after(event),
            capture == old(self).captures(event),
    {
        match event {
            PointerEvent::Moved { x, y } => {
                self.position = Point { x, y };
                None
            },
            PointerEvent::LeftPressed => {
                if self.first.is_none() {
                    self.first = Some(self.position);
                    None
                } else if self.second.is_none() {
                    self.second = Some(self.position);
                    let a = self.first.unwrap();
                    let b = self.position;
                    Some(Region::spanning(a, b))
                } else {
                    None
                }
            },
            PointerEvent::Other => None,
        }
    }
}

} // verus!
