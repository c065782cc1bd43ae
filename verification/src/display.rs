//! The visualization helpers: the palette of per-job colors and the layout
//! of one block of the stacked bands.  Rendering itself is left to the
//! caller; these functions only decide what each block holds.

use vstd::prelude::*;

use crate::map::ProcMap;

verus! {

/// A rolling palette: blocks drawn in sequence take the next color; job
/// blocks take a stable color from their id.
pub struct RandomColor {
    pub cols: Vec<(u8, u8, u8)>,
    pub cur: usize,
}

impl RandomColor {
    /// The palette, starting at its first color.
    pub fn init() -> (r: RandomColor)
        ensures
            r.cur == 0,
            r.cols@.len() == 47,
    {
        RandomColor {
            cur: 0,
            cols: vec![
                (255, 192, 203),
                (153, 204, 255),
                (245, 222, 179),
                (170, 140, 180),
                (224, 102, 102),
                (242, 177, 155),
                (136, 160, 200),
                (226, 184, 151),
                (139, 65, 139),
                (220, 133, 123),
                (230, 185, 156),
                (154, 114, 153),
                (243, 190, 178),
                (173, 143, 162),
                (221, 105, 104),
                (234, 193, 164),
                (146, 103, 136),
                (235, 194, 163),
                (169, 134, 149),
                (227, 145, 142),
                (242, 206, 175),
                (153, 93, 93),
                (239, 180, 160),
                (156, 115, 131),
                (244, 207, 187),
                (174, 144, 154),
                (229, 166, 158),
                (246, 216, 202),
                (162, 121, 132),
                (245, 219, 204),
                (188, 155, 158),
                (234, 223, 209),
                (163, 123, 133),
                (243, 225, 203),
                (177, 147, 153),
                (230, 224, 208),
                (247, 236, 227),
                (166, 126, 136),
                (248, 235, 231),
                (194, 165, 164),
                (238, 224, 213),
                (173, 139, 143),
                (245, 232, 217),
                (201, 171, 170),
                (242, 246, 244),
                (182, 153, 158),
                (239, 243, 240),
            ],
        }
    }

    /// The next color of the palette; black once it is exhausted.
    pub fn next(&mut self) -> (c: (u8, u8, u8))
        ensures
            final(self).cols@ == old(self).cols@,
            old(self).cur < old(self).cols@.len() ==> c == old(self).cols@[old(self).cur as int]
                && final(self).cur == old(self).cur + 1,
            old(self).cur >= old(self).cols@.len() ==> c == (0u8, 0u8, 0u8) && final(self).cur
                == old(self).cur,
    {
        if self.cur < self.cols.len() {
            let c: (u8, u8, u8) = self.cols[self.cur];
            self.cur = self.cur + 1;
            c
        } else {
            (0, 0, 0)
        }
    }

    /// The stable color of a job id.
    pub fn id(&self, i: u32) -> (c: (u8, u8, u8))
        requires
            self.cols@.len() > 0,
        ensures
            c == self.cols@[i as int % self.cols@.len() as int],
    {
        let u: usize = (i as usize) % self.cols.len();
        self.cols[u]
    }
}

/// The first candidate label short enough for the block width.
pub open spec fn spec_pick(names: Seq<String>, width: int) -> Option<String>
    decreases names.len(),
{
    if names.len() == 0 {
        None
    } else if names[0]@.len() < width {
        Some(names[0])
    } else {
        spec_pick(names.drop_first(), width)
    }
}

impl ProcMap {
    /// The band width multiplier for a system of the given slot count:
    /// small systems draw wider blocks.
    pub fn multiplier(count: i32) -> (m: u8)
        ensures
            0 <= count <= 10 ==> m == 10,
            11 <= count <= 20 ==> m == 8,
            21 <= count <= 40 ==> m == 4,
            count < 0 || count > 40 ==> m == 1,
    {
        if 0 <= count && count <= 10 {
            10
        } else if 11 <= count && count <= 20 {
            8
        } else if 21 <= count && count <= 40 {
            4
        } else {
            1
        }
    }

    /// Lay out one block of a band in a given color: its label (the first
    /// candidate that fits, if any) and the trailing padding.  A block of
    /// no width draws nothing.
    pub fn print_block_color(
        names: Vec<String>,
        len: usize,
        col: (u8, u8, u8),
        multiplier: u8,
    ) -> (r: Option<(String, usize, (u8, u8, u8))>)
        requires
            len * multiplier <= usize::MAX,
        ensures
            len == 0 ==> r is None,
            len > 0 ==> {
                let width = len * multiplier;
                match r {
                    Some(b) => {
                        &&& (match spec_pick(names@, width as int) {
                            Some(s) => b.0 == s && b.1 + b.0@.len() == width,
                            None => b.0@.len() == 0 && b.1 == width,
                        })
                        &&& b.2 == col
                    },
                    None => false,
                }
            },
    {
        if len == 0 {
            return None;
        }
        let width: usize = len * multiplier as usize;
        let nn: usize = names.len();
        let mut t: usize = 0;
        while t < nn && !(names[t].as_str().unicode_len() < width)
            invariant
                0 <= t <= nn,
                nn == names@.len(),
                forall|q: int| 0 <= q < t ==> (#[trigger] names@[q])@.len() >= width,
            decreases nn - t,
        {
            t = t + 1;
        }
        if t < nn {
            proof {
                lemma_spec_pick_at(names@, width as int, t as int);
            }
            let label: String = names[t].clone();
            let ll: usize = label.as_str().unicode_len();
            Some((label, width - ll, col))
        } else {
            proof {
                lemma_spec_pick_none(names@, width as int);
            }
            Some((String::new(), width, col))
        }
    }

    /// Lay out one block of a band in the next rolling color.
    pub fn print_block(
        names: Vec<String>,
        len: usize,
        col: &mut RandomColor,
        multiplier: u8,
    ) -> (r: Option<(String, usize, (u8, u8, u8))>)
        requires
            len * multiplier <= usize::MAX,
        ensures
            final(col).cols@ == old(col).cols@,
            old(col).cur < old(col).cols@.len() ==> final(col).cur == old(col).cur + 1,
            old(col).cur >= old(col).cols@.len() ==> final(col).cur == old(col).cur,
            len == 0 ==> r is None,
            len > 0 ==> {
                let width = len * multiplier;
                match r {
                    Some(b) => {
                        &&& (match spec_pick(names@, width as int) {
                            Some(s) => b.0 == s && b.1 + b.0@.len() == width,
                            None => b.0@.len() == 0 && b.1 == width,
                        })
                        &&& (old(col).cur < old(col).cols@.len() ==> b.2 == old(col).cols@[
                            old(col).cur as int])
                        &&& (old(col).cur >= old(col).cols@.len() ==> b.2 == (0u8, 0u8, 0u8))
                    },
                    None => false,
                }
            },
    {
        let c: (u8, u8, u8) = col.next();
        Self::print_block_color(names, len, c, multiplier)
    }
}

/// A candidate that fits, with none fitting before it, is the pick.
pub proof fn lemma_spec_pick_at(names: Seq<String>, width: int, t: int)
    requires
        0 <= t < names.len(),
        names[t]@.len() < width,
        forall|q: int| 0 <= q < t ==> (#[trigger] names[q])@.len() >= width,
    ensures
        spec_pick(names, width) == Some(names[t]),
    decreases names.len(),
{
    if t > 0 {
        assert(forall|q: int| 0 <= q < names.drop_first().len() ==> names.drop_first()[q]
            == names[q + 1]);
        lemma_spec_pick_at(names.drop_first(), width, t - 1);
    }
}

/// With no candidate fitting, there is no pick.
pub proof fn lemma_spec_pick_none(names: Seq<String>, width: int)
    requires
        forall|q: int| 0 <= q < names.len() ==> (#[trigger] names[q])@.len() >= width,
    ensures
        spec_pick(names, width) is None,
    decreases names.len(),
{
    if names.len() > 0 {
        assert(forall|q: int| 0 <= q < names.drop_first().len() ==> names.drop_first()[q]
            == names[q + 1]);
        lemma_spec_pick_none(names.drop_first(), width);
    }
}

} // verus!
