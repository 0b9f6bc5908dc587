//! The ring lattice a propagation view draws, and the styling rules of its
//! nodes and connections.

use vstd::prelude::*;

verus! {

/// One point of the lattice: a segment of a ring.
#[derive(PartialEq, Eq, Structural, Clone, Copy, Debug)]
pub struct RingSlot {
    pub ring: usize,
    pub segment: usize,
}

/// The points of whole rings, ring by ring from the centre, twelve
/// segments to a ring.
pub struct RingLattice {
    pub slots: Vec<RingSlot>,
}

impl RingLattice {
    /// Slot `i` is segment `i % 12` of ring `i / 12`, and the rings are
    /// whole.
    pub open spec fn well_formed(&self) -> bool {
        &&& self.slots@.len() % 12 == 0
        &&& forall|i: int|
            0 <= i < self.slots@.len() ==> #[trigger] self.slots@[i] == (RingSlot {
                ring: (i / 12) as usize,
                segment: (i % 12) as usize,
            })
    }

    /// A lattice whose rings cover `initial_rings` (see `ensure_ring_exists`).
    pub fn new(initial_rings: usize) -> (lattice: Self)
        requires
            initial_rings * 12 + 12 <= usize::MAX,
        ensures
            lattice.well_formed(),
            lattice.slots@.len() == 12 * (initial_rings + 1),
    {
        let mut lattice = RingLattice { slots: Vec::new() };
        lattice.ensure_ring_exists(initial_rings);
        lattice
    }

    /// Adds whole rings until the lattice holds more than `ring * 12`
    /// points, that is until ring `ring` is complete; a lattice that already
    /// does is left as it is.
    pub fn ensure_ring_exists(&mut self, ring: usize)
        requires
            old(self).well_formed(),
            ring * 12 + 12 <= usize::MAX,
        ensures
            final(self).well_formed(),
            old(self).slots@.len() > ring * 12 ==> final(self).slots@ == old(self).slots@,
            old(self).slots@.len() <= ring * 12 ==> final(self).slots@.len() == 12 * (ring + 1),
            final(self).slots@.subrange(0, old(self).slots@.len() as int) == old(self).slots@,
    {
        let ghost start = self.slots@;
        while self.slots.len() < ring * 12 + 1
            invariant
                self.well_formed(),
                ring * 12 + 12 <= usize::MAX,
                start.len() <= self.slots@.len(),
                self.slots@.subrange(0, start.len() as int) == start,
                start.len() <= ring * 12 ==> self.slots@.len() <= 12 * (ring + 1),
                start.len() > ring * 12 ==> self.slots@ == start,
            decreases ring * 12 + 12 - self.slots@.len(),
        {
            let current_ring = self.slots.len() / 12;
            let ghost before = self.slots@;
            let mut segment: usize = 0;
            while segment < 12
                invariant
                    segment <= 12,
                    before.len() % 12 == 0,
                    current_ring == before.len() / 12,
                    before.len() + 12 <= usize::MAX,
                    self.slots@.len() == before.len() + segment,
                    self.slots@.subrange(0, before.len() as int) == before,
                    forall|i: int|
                        0 <= i < before.len() ==> #[trigger] before[i] == (RingSlot {
                            ring: (i / 12) as usize,
                            segment: (i % 12) as usize,
                        }),
                    forall|i: int|
                        0 <= i < self.slots@.len() ==> #[trigger] self.slots@[i] == (RingSlot {
                            ring: (i / 12) as usize,
                            segment: (i % 12) as usize,
                        }),
                decreases 12 - segment,
            {
                self.slots.push(RingSlot { ring: current_ring, segment });
                segment = segment + 1;
            }
            assert(self.slots@.subrange(0, start.len() as int) == start) by {
                assert(self.slots@.subrange(0, start.len() as int) =~= before.subrange(
                    0,
                    start.len() as int,
                ));
            }
        }
    }
}

/// How a node is drawn: on the wave front or behind it.
#[derive(PartialEq, Eq, Structural, Clone, Copy, Debug)]
pub enum NodeGlyph {
    WaveFront,
    Settled,
}

/// The glyph and colour of a node.
#[derive(PartialEq, Eq, Structural, Clone, Copy, Debug)]
pub struct NodeStyle {
    pub glyph: NodeGlyph,
    pub red: u8,
    pub green: u8,
    pub blue: u8,
}

/// The colour of a node of tree depth `depth`: the three layers cycle red,
/// green and blue; nodes on the wave front are bright, the others dim.
pub open spec fn layer_colour(depth: nat, front: bool) -> (u8, u8, u8) {
    if front {
        if depth % 3 == 0 {
            (255, 50, 50)
        } else if depth % 3 == 1 {
            (50, 255, 50)
        } else {
            (50, 50, 255)
        }
    } else {
        if depth % 3 == 0 {
            (100, 30, 30)
        } else if depth % 3 == 1 {
            (30, 100, 30)
        } else {
            (30, 30, 100)
        }
    }
}

/// Channel `c` of a colour: 0 red, 1 green, 2 blue.
pub open spec fn channel(rgb: (u8, u8, u8), c: int) -> u8 {
    if c == 0 {
        rgb.0
    } else if c == 1 {
        rgb.1
    } else {
        rgb.2
    }
}

/// The layers cycle red, green, blue: the colour of depth `depth` lights
/// channel `depth % 3` (255 on the wave front, 100 behind it) and leaves
/// the other two low (50 on the front, 30 behind); so it repeats every
/// three depths, and layers that differ by depth modulo three never share
/// a colour.
pub proof fn lemma_layer_colour_cycles(depth: nat, front: bool)
    ensures
        forall|c: int|
            0 <= c < 3 ==> #[trigger] channel(layer_colour(depth, front), c) == (if c == depth % 3 {
                if front {
                    255u8
                } else {
                    100u8
                }
            } else {
                if front {
                    50u8
                } else {
                    30u8
                }
            }),
        layer_colour(depth + 3, front) == layer_colour(depth, front),
        forall|other: nat|
            other % 3 != depth % 3 ==> #[trigger] layer_colour(other, front) != layer_colour(depth, front),
{
    assert((depth + 3) % 3 == depth % 3);
    assert forall|other: nat| other % 3 != depth % 3 implies #[trigger] layer_colour(other, front)
        != layer_colour(depth, front) by {
        let a = layer_colour(other, front);
        let b = layer_colour(depth, front);
        assert(channel(a, (other % 3) as int) != channel(b, (other % 3) as int));
    }
}

/// How to draw a node on ring `ring` at tree depth `depth` while the wave
/// has reached ring `current_wave`: not at all beyond the wave, as the
/// wave front on it, and dimmed behind it.
pub fn get_node_style(ring: usize, depth: usize, current_wave: usize) -> (style: Option<NodeStyle>)
    ensures
        ring > current_wave ==> style.is_none(),
        ring <= current_wave ==> style.is_some() && ({
            let s = style.unwrap();
            &&& s.glyph == (if ring == current_wave {
                NodeGlyph::WaveFront
            } else {
                NodeGlyph::Settled
            })
            &&& (s.red, s.green, s.blue) == layer_colour(depth as nat, ring == current_wave)
        }),
{
    if ring > current_wave {
        return None;
    }
    let front = ring == current_wave;
    let (red, green, blue) = layer_rgb(depth, front);
    Some(NodeStyle {
        glyph: if front {
            NodeGlyph::WaveFront
        } else {
            NodeGlyph::Settled
        },
        red,
        green,
        blue,
    })
}

/// `layer_colour(depth, front)`, computed.
pub fn layer_rgb(depth: usize, front: bool) -> (rgb: (u8, u8, u8))
    ensures
        rgb == layer_colour(depth as nat, front),
{
    let layer = depth % 3;
    if front {
        if layer == 0 {
            (255, 50, 50)
        } else if layer == 1 {
            (50, 255, 50)
        } else {
            (50, 50, 255)
        }
    } else {
        if layer == 0 {
            (100, 30, 30)
        } else if layer == 1 {
            (30, 100, 30)
        } else {
            (30, 30, 100)
        }
    }
}

/// The stroke that draws a connection, by the direction it points in.
#[derive(PartialEq, Eq, Structural, Clone, Copy, Debug)]
pub enum ConnectionGlyph {
    Falling,
    Rising,
    Vertical,
    Horizontal,
}

/// The stroke for a connection whose angle, in eighths of a half turn and
/// truncated towards zero, is `sector`.
pub fn connection_glyph(sector: i32) -> (glyph: ConnectionGlyph)
    ensures
        glyph == (if sector == -4 || sector == -3 || sector == 1 || sector == 2 {
            ConnectionGlyph::Falling
        } else if sector == -2 || sector == -1 || sector == 3 || sector == 4 {
            ConnectionGlyph::Rising
        } else if sector == 0 {
            ConnectionGlyph::Vertical
        } else {
            ConnectionGlyph::Horizontal
        }),
{
    match sector {
        -4 | -3 => ConnectionGlyph::Falling,
        -2 | -1 => ConnectionGlyph::Rising,
        0 => ConnectionGlyph::Vertical,
        1 | 2 => ConnectionGlyph::Falling,
        3 | 4 => ConnectionGlyph::Rising,
        _ => ConnectionGlyph::Horizontal,
    }
}

/// Whether a node on ring `ring` gets a connection to its parent drawn
/// while the wave has reached ring `current_wave`: rings past the centre
/// that the wave has reached do.
pub fn shows_connection(ring: usize, current_wave: usize) -> (shown: bool)
    ensures
        shown == (ring > 0 && ring <= current_wave),
{
    ring > 0 && ring <= current_wave
}

/// The ring of the parent a connection from ring `ring` leads to.
pub fn parent_ring(ring: usize) -> (parent: usize)
    ensures
        parent == ring / 7,
{
    ring / 7
}

/// The colour of a connection from ring `ring`: dim red, green or blue as
/// `ring % 3` cycles.
pub fn connection_rgb(ring: usize) -> (rgb: (u8, u8, u8))
    ensures
        rgb == layer_colour(ring as nat, false),
{
    layer_rgb(ring, false)
}

} // verus!
