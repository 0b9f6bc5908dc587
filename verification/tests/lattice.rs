use signals::lattice::{
    connection_glyph, connection_rgb, get_node_style, parent_ring, shows_connection, ConnectionGlyph, NodeGlyph,
    NodeStyle, RingLattice, RingSlot,
};

#[test]
fn lattice_holds_whole_rings() {
    let mut lattice = RingLattice::new(10);
    assert_eq!(lattice.slots.len(), 132);
    assert_eq!(lattice.slots[13], RingSlot { ring: 1, segment: 1 });
    lattice.ensure_ring_exists(5);
    assert_eq!(lattice.slots.len(), 132);
    lattice.ensure_ring_exists(12);
    assert_eq!(lattice.slots.len(), 156);
    assert_eq!(lattice.slots[155], RingSlot { ring: 12, segment: 11 });
}

#[test]
fn node_styles_follow_wave() {
    assert_eq!(get_node_style(4, 0, 3), None);
    assert_eq!(
        get_node_style(3, 4, 3),
        Some(NodeStyle { glyph: NodeGlyph::WaveFront, red: 50, green: 255, blue: 50 })
    );
    assert_eq!(
        get_node_style(1, 2, 3),
        Some(NodeStyle { glyph: NodeGlyph::Settled, red: 30, green: 30, blue: 100 })
    );
    assert_eq!(
        get_node_style(0, 0, 0),
        Some(NodeStyle { glyph: NodeGlyph::WaveFront, red: 255, green: 50, blue: 50 })
    );
}

#[test]
fn connection_styles() {
    assert_eq!(connection_glyph(-4), ConnectionGlyph::Falling);
    assert_eq!(connection_glyph(-1), ConnectionGlyph::Rising);
    assert_eq!(connection_glyph(0), ConnectionGlyph::Vertical);
    assert_eq!(connection_glyph(2), ConnectionGlyph::Falling);
    assert_eq!(connection_glyph(4), ConnectionGlyph::Rising);
    assert_eq!(connection_glyph(5), ConnectionGlyph::Horizontal);
    assert_eq!(connection_glyph(-7), ConnectionGlyph::Horizontal);
    assert!(!shows_connection(0, 4));
    assert!(shows_connection(4, 4));
    assert!(!shows_connection(5, 4));
    assert_eq!(parent_ring(15), 2);
    assert_eq!(connection_rgb(4), (30, 100, 30));
}
