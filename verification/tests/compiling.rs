use pixel_fsm::fsm::Fsm;
use pixel_fsm::fsm::State;
use pixel_fsm::fsm::Transition;
use pixel_fsm::picture::Color;
use pixel_fsm::picture::Picture;
use pixel_fsm::point::Point;
use pixel_fsm::table::ColorType;

const F: Color = Color { r: 0, g: 0, b: 255 };
const R: Color = Color { r: 255, g: 0, b: 0 };
const G: Color = Color { r: 0, g: 255, b: 0 };
const W: Color = Color { r: 255, g: 255, b: 255 };
const B: Color = Color { r: 0, g: 0, b: 0 };
const M: Color = Color { r: 200, g: 0, b: 200 };

fn grid(rows: &[&[Color]]) -> Picture {
    let height = rows.len() as i32;
    let width = if rows.is_empty() { 0 } else { rows[0].len() as i32 };
    let mut pixels = vec![];
    for row in rows {
        for c in row.iter() {
            pixels.push(*c);
        }
    }
    Picture { pixels, width, height }
}

fn compile(definition: Picture, inputs: &[Color], outputs: &[Color]) -> Fsm {
    let mut builder = Fsm::builder(definition);
    for c in inputs {
        builder.add_input(*c);
    }
    for c in outputs {
        builder.add_output(*c);
    }
    builder.build()
}

fn plain_definitions() -> Vec<Picture> {
    vec![
        grid(&[&[F, W]]),
        grid(&[&[F, R]]),
        grid(&[&[W, G, W], &[R, F, R], &[W, G, W]]),
        grid(&[&[W, W, W, W], &[W, F, R, W], &[W, G, G, W], &[W, W, W, F]]),
    ]
}

fn marked_definitions() -> Vec<Picture> {
    vec![
        grid(&[&[M, W, M], &[W, M, R], &[M, W, M]]),
        grid(&[&[G, W, W, G], &[W, G, R, W], &[G, R, R, G]]),
    ]
}

fn loop_definitions() -> Vec<Picture> {
    vec![
        grid(&[&[F, B, B, W]]),
        grid(&[&[F, B, B]]),
        grid(&[&[F, B, B, W, B, B, W, R]]),
        grid(&[&[F, W], &[B, W], &[B, W], &[R, W]]),
    ]
}

fn edges(fsm: &Fsm) -> Vec<Vec<(usize, Transition)>> {
    fsm.states.iter().map(|s| s.t.clone()).collect()
}

/// Checks that all of the definitions compile into a graph of more than one
/// state.
#[test]
fn fsm_compiles() {
    for p in plain_definitions() {
        let fsm = compile(p, &[R], &[G]);
        assert!(fsm.states.len() > 1);
    }
    for p in marked_definitions() {
        let fsm = compile(p, &[R], &[]);
        assert!(fsm.states.len() > 1);
    }
}

#[test]
fn definition_with_corner_markers_identifies_itself_without_them() {
    let marked = grid(&[&[M, W, M], &[W, M, R], &[M, W, M]]);
    let fsm = compile(marked.clone(), &[R], &[]);
    assert_eq!(
        edges(&fsm),
        vec![
            vec![(1, Transition::Consume(M))],
            vec![(2, Transition::MoveRelative(0, Point::from(1, 0)))],
            vec![(3, Transition::Consume(R))],
            vec![],
        ]
    );
    // In the picture as it is, the search starts on the marker in the corner.
    assert!(fsm.identify(marked).is_none());
    let found = fsm
        .identify(grid(&[&[W, W, W], &[W, M, R], &[W, W, W]]))
        .expect("the stripped picture matches");
    assert_eq!(found.get(M), Some(&vec![M]));
    assert_eq!(found.get(R), Some(&vec![R]));
}

/// Checks that all of the definitions with loops compile into a graph of more
/// than one state.
#[test]
fn loop_fsm_compiles() {
    for p in loop_definitions() {
        let fsm = compile(p, &[R], &[]);
        assert!(fsm.states.len() > 1);
    }
}

/// Checks that all of the definitions without loops identify themselves.
#[test]
fn fsm_identifies_self() {
    for p in plain_definitions() {
        let fsm = compile(p.clone(), &[R], &[G]);
        assert!(fsm.identify(p.clone()).is_some());
    }
}

#[test]
fn new_state_is_accepting() {
    assert!(State::new().t.is_empty());
}

#[test]
fn builder_starts_on_the_first_function_pixel() {
    let builder = Fsm::builder(grid(&[&[W, R, W], &[W, F, F], &[F, W, W]]));
    assert_eq!(builder.head_pos, Point::from(1, 1));
    assert_eq!(builder.states.len(), 1);
    assert!(builder.states[0].t.is_empty());
    assert_eq!(builder.colors.get(F), Some(ColorType::Function));
    assert_eq!(builder.colors.get(R), None);
    assert_eq!(builder.p.pixels, vec![W, R, W, W, F, F, F, W, W]);
}

#[test]
fn builder_takes_the_corner_color_and_strips_the_corners() {
    let builder = Fsm::builder(grid(&[&[M, W, M], &[W, M, R], &[M, W, M]]));
    assert_eq!(builder.colors.get(M), Some(ColorType::Function));
    assert_eq!(builder.colors.get(F), None);
    assert_eq!(builder.head_pos, Point::from(1, 1));
    assert_eq!(builder.p.pixels, vec![W, W, W, W, M, R, W, W, W]);
}

#[test]
fn try_builder_refuses_a_picture_without_function_color() {
    assert!(Fsm::try_builder(grid(&[&[R, G], &[W, B]])).is_none());
}

#[test]
fn try_builder_refuses_a_picture_whose_only_function_pixels_are_corners() {
    assert!(Fsm::try_builder(grid(&[&[M, W, M], &[W, R, W], &[M, W, M]])).is_none());
    assert!(Fsm::try_builder(grid(&[&[G]])).is_none());
}

#[test]
fn try_builder_refuses_an_empty_picture() {
    assert!(Fsm::try_builder(Picture { pixels: vec![], width: 0, height: 0 }).is_none());
    assert!(Fsm::try_builder(Picture { pixels: vec![], width: 3, height: 0 }).is_none());
}

#[test]
fn try_builder_accepts_what_builder_accepts() {
    let built = Fsm::try_builder(grid(&[&[W, F]])).expect("the picture has a blue pixel");
    assert_eq!(built.head_pos, Point::from(1, 0));
}

#[test]
fn add_input_and_add_output_register_roles() {
    let mut builder = Fsm::builder(grid(&[&[F, R, G]]));
    builder.add_input(R);
    builder.add_output(G);
    assert_eq!(builder.colors.get(R), Some(ColorType::Input));
    assert_eq!(builder.colors.get(G), Some(ColorType::Output));
    assert_eq!(builder.colors.get(F), Some(ColorType::Function));
    let fsm = builder.build();
    assert_eq!(fsm.colors.get(R), Some(ColorType::Input));
    assert_eq!(fsm.colors.get(G), Some(ColorType::Output));
    assert_eq!(fsm.colors.function_color(), Some(F));
}

#[test]
fn single_pixel_compiles_to_two_states() {
    let fsm = compile(grid(&[&[F, W]]), &[], &[]);
    assert_eq!(edges(&fsm), vec![vec![(1, Transition::Consume(F))], vec![]]);
}

#[test]
fn unregistered_neighbors_are_passed_over() {
    let fsm = compile(grid(&[&[G, F, R], &[R, G, R]]), &[], &[]);
    assert_eq!(edges(&fsm), vec![vec![(1, Transition::Consume(F))], vec![]]);
}

#[test]
fn neighbors_are_entered_in_canonical_order() {
    let fsm = compile(grid(&[&[W, G, W], &[R, F, R], &[W, G, W]]), &[R], &[G]);
    assert_eq!(
        edges(&fsm),
        vec![
            vec![(1, Transition::Consume(F))],
            vec![(2, Transition::MoveRelative(0, Point::from(1, 0)))],
            vec![(3, Transition::Consume(R))],
            vec![(4, Transition::MoveRelative(2, Point::from(-1, -1)))],
            vec![(5, Transition::Consume(G))],
            vec![(6, Transition::MoveRelative(4, Point::from(-1, 1)))],
            vec![(7, Transition::Consume(R))],
            vec![(8, Transition::MoveRelative(6, Point::from(1, 1)))],
            vec![(9, Transition::Consume(G))],
            vec![],
        ]
    );
}

#[test]
fn moves_are_relative_to_the_state_that_entered_the_pixel() {
    // The pixel below the function pixel is found from the pixel right of
    // it, which comes first: the move to it is relative to state 2.
    let fsm = compile(grid(&[&[F, R], &[G, W]]), &[R], &[G]);
    assert_eq!(
        edges(&fsm),
        vec![
            vec![(1, Transition::Consume(F))],
            vec![(2, Transition::MoveRelative(0, Point::from(1, 0)))],
            vec![(3, Transition::Consume(R))],
            vec![(4, Transition::MoveRelative(2, Point::from(-1, 1)))],
            vec![(5, Transition::Consume(G))],
            vec![],
        ]
    );
    let fsm = compile(grid(&[&[F, R, W], &[W, W, W], &[W, W, W]]), &[R], &[G]);
    assert_eq!(fsm.states.len(), 4);
    let fsm = compile(grid(&[&[F, R, W], &[R, W, W]]), &[R], &[]);
    assert_eq!(
        edges(&fsm),
        vec![
            vec![(1, Transition::Consume(F))],
            vec![(2, Transition::MoveRelative(0, Point::from(1, 0)))],
            vec![(3, Transition::Consume(R))],
            vec![(4, Transition::MoveRelative(2, Point::from(-1, 1)))],
            vec![(5, Transition::Consume(R))],
            vec![],
        ]
    );
}

#[test]
fn a_dead_end_returns_to_the_pixel_before() {
    // A registered pixel that touches nothing of the symbol is not part of it.
    let fsm = compile(grid(&[&[F, R], &[W, W], &[G, W]]), &[R], &[G]);
    assert_eq!(fsm.states.len(), 4);
    // The pixel right of the function pixel has no further neighbor: the
    // pixel left of the function pixel is entered relative to state 0.
    let fsm = compile(grid(&[&[R, F, G]]), &[R], &[G]);
    assert_eq!(
        edges(&fsm),
        vec![
            vec![(1, Transition::Consume(F))],
            vec![(2, Transition::MoveRelative(0, Point::from(1, 0)))],
            vec![(3, Transition::Consume(G))],
            vec![(4, Transition::MoveRelative(0, Point::from(-1, 0)))],
            vec![(5, Transition::Consume(R))],
            vec![],
        ]
    );
}

#[test]
fn a_run_of_two_markers_becomes_a_loop() {
    let fsm = compile(grid(&[&[F, B, B, W]]), &[], &[]);
    assert_eq!(
        edges(&fsm),
        vec![
            vec![(1, Transition::Consume(F))],
            vec![(2, Transition::Capture(0))],
            vec![
                (3, Transition::MoveRelative(2, Point::from(1, 0))),
                (4, Transition::Epsilon)
            ],
            vec![(4, Transition::Consume(F))],
            vec![(2, Transition::Epsilon), (5, Transition::EndCapture(0))],
            vec![],
        ]
    );
}

#[test]
fn the_group_of_a_loop_is_the_red_channel_of_its_marker() {
    let marker = Color::from(77, 0, 0);
    let fsm = compile(grid(&[&[F], &[marker], &[marker], &[marker]]), &[], &[]);
    assert_eq!(
        edges(&fsm),
        vec![
            vec![(1, Transition::Consume(F))],
            vec![(2, Transition::Capture(77))],
            vec![
                (3, Transition::MoveRelative(2, Point::from(0, 1))),
                (4, Transition::Epsilon)
            ],
            vec![(4, Transition::Consume(F))],
            vec![(2, Transition::Epsilon), (5, Transition::EndCapture(77))],
            vec![],
        ]
    );
}

#[test]
fn a_single_marker_is_no_loop() {
    let fsm = compile(grid(&[&[F, B, R]]), &[R], &[]);
    assert_eq!(edges(&fsm), vec![vec![(1, Transition::Consume(F))], vec![]]);
    let fsm = compile(grid(&[&[F, B, Color::from(1, 0, 0)]]), &[R], &[]);
    assert_eq!(fsm.states.len(), 2);
}

#[test]
fn the_walk_goes_on_past_the_run() {
    let fsm = compile(grid(&[&[F, B, B, W, R]]), &[R], &[]);
    assert_eq!(
        edges(&fsm),
        vec![
            vec![(1, Transition::Consume(F))],
            vec![(2, Transition::Capture(0))],
            vec![
                (3, Transition::MoveRelative(2, Point::from(1, 0))),
                (4, Transition::Epsilon)
            ],
            vec![(4, Transition::Consume(F))],
            vec![(2, Transition::Epsilon), (5, Transition::EndCapture(0))],
            vec![(6, Transition::MoveRelative(5, Point::from(1, 0)))],
            vec![(7, Transition::Consume(R))],
            vec![],
        ]
    );
}

#[test]
fn a_loop_after_a_loop_consumes_the_color_past_the_first_run() {
    let fsm = compile(grid(&[&[F, B, B, G, B, B, W, R]]), &[R], &[G]);
    assert_eq!(fsm.states.len(), 12);
    assert_eq!(fsm.states[3].t, vec![(4, Transition::Consume(F))]);
    assert_eq!(fsm.states[7].t, vec![(8, Transition::Consume(G))]);
    assert_eq!(
        fsm.states[6].t,
        vec![(7, Transition::MoveRelative(6, Point::from(1, 0))), (8, Transition::Epsilon)]
    );
    assert_eq!(fsm.states[8].t, vec![(6, Transition::Epsilon), (9, Transition::EndCapture(0))]);
    assert_eq!(fsm.states[9].t, vec![(10, Transition::MoveRelative(9, Point::from(1, 0)))]);
    assert_eq!(fsm.states[10].t, vec![(11, Transition::Consume(R))]);
}

#[test]
fn compiling_twice_gives_the_same_graph() {
    for p in plain_definitions().into_iter().chain(loop_definitions()) {
        let first = compile(p.clone(), &[R], &[G]);
        let second = compile(p, &[R], &[G]);
        assert_eq!(edges(&first), edges(&second));
    }
}

#[test]
fn compiled_graph_is_a_chain_with_one_accepting_state() {
    for p in plain_definitions().into_iter().chain(loop_definitions()) {
        let fsm = compile(p, &[R], &[G]);
        let last = fsm.states.len() - 1;
        assert!(fsm.states.len() >= 2);
        for (s, state) in fsm.states.iter().enumerate() {
            assert_eq!(state.t.is_empty(), s == last);
            if s < last {
                assert!(state.t.iter().any(|e| e.0 == s + 1));
            }
        }
    }
}
