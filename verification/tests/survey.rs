use aether::block::BlockStateId;
use aether::ids;
use aether::survey::{glyph, ring, stream_start, stream_step, StreamAction, StreamEvent};

#[test]
fn ring_zero_is_the_centre() {
    assert_eq!(ring((3, -4), 0), vec![(3, -4)]);
}

#[test]
fn ring_one_lists_the_eight_neighbours_in_streaming_order() {
    assert_eq!(
        ring((0, 0), 1),
        vec![(-1, -1), (-1, 1), (0, -1), (0, 1), (1, -1), (1, 1), (-1, 0), (1, 0)]
    );
}

#[test]
fn ring_holds_every_column_at_that_distance_once() {
    let r = 3;
    let out = ring((10, 20), r);
    assert_eq!(out.len(), 8 * r as usize);
    let mut seen = std::collections::HashSet::new();
    for &(x, z) in &out {
        assert_eq!((x - 10).abs().max((z - 20).abs()), r);
        assert!(seen.insert((x, z)));
    }
}

#[test]
fn glyphs_match_the_legend() {
    assert_eq!(glyph(BlockStateId(ids::AIR)), ' ');
    assert_eq!(glyph(BlockStateId(ids::GRASS_BLOCK)), '#');
    assert_eq!(glyph(BlockStateId(ids::DIRT)), '+');
    assert_eq!(glyph(BlockStateId(ids::STONE)), '.');
    assert_eq!(glyph(BlockStateId(ids::SAND)), ':');
    assert_eq!(glyph(BlockStateId(ids::GRAVEL)), ';');
    assert_eq!(glyph(BlockStateId(ids::WATER)), '~');
    assert_eq!(glyph(BlockStateId(ids::BEDROCK)), '_');
    assert_eq!(glyph(BlockStateId(ids::OAK_LOG)), '|');
    assert_eq!(glyph(BlockStateId(ids::OAK_LEAVES)), '*');
    assert_eq!(glyph(BlockStateId(ids::GLOWSTONE)), 'X');
}

#[test]
fn stream_visits_rings_in_order_then_finishes() {
    let mut s = stream_start((0, 0), 1, 4);
    let mut visits = Vec::new();
    let mut flushes = Vec::new();
    loop {
        let (next, action) = stream_step(&s, StreamEvent::Continue);
        s = next;
        match action {
            StreamAction::Visit { cx, cz, flush } => {
                visits.push((cx, cz));
                if flush {
                    flushes.push(s.count);
                }
            },
            StreamAction::Finish { interrupted } => {
                assert!(!interrupted);
                break;
            },
        }
    }
    assert_eq!(
        visits,
        vec![(0, 0), (-1, -1), (-1, 1), (0, -1), (0, 1), (1, -1), (1, 1), (-1, 0), (1, 0)]
    );
    assert_eq!(flushes, vec![4, 8]);
    let (again, action) = stream_step(&s, StreamEvent::Continue);
    assert_eq!(action, StreamAction::Finish { interrupted: false });
    assert_eq!(again, s);
}

#[test]
fn stream_stops_when_interrupted() {
    let s = stream_start((5, -3), 0, 1);
    let (s, action) = stream_step(&s, StreamEvent::Continue);
    assert_eq!(action, StreamAction::Visit { cx: 5, cz: -3, flush: true });
    let (s, action) = stream_step(&s, StreamEvent::Interrupt);
    assert_eq!(action, StreamAction::Finish { interrupted: true });
    assert!(s.finished && s.interrupted);
    assert_eq!(s.count, 1);
}
