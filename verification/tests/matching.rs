use pixel_fsm::fsm::Fsm;
use pixel_fsm::fsm::State;
use pixel_fsm::fsm::Transition;
use pixel_fsm::matcher::Captures;
use pixel_fsm::picture::Color;
use pixel_fsm::picture::Picture;
use pixel_fsm::point::Point;
use pixel_fsm::table::ColorTable;
use pixel_fsm::table::ColorType;

const F: Color = Color { r: 0, g: 0, b: 255 };
const R: Color = Color { r: 255, g: 0, b: 0 };
const G: Color = Color { r: 0, g: 255, b: 0 };
const W: Color = Color { r: 255, g: 255, b: 255 };
const B: Color = Color { r: 0, g: 0, b: 0 };

fn grid(rows: &[&[Color]]) -> Picture {
    let height = rows.len() as i32;
    let width = if rows.is_empty() { 0 } else { rows[0].len() as i32 };
    let mut pixels = vec![];
    for row in rows {
        for c in row.iter() {
            pixels.push(*c);
        }
    }
    Picture { pixels, width, height }
}

fn compile(definition: Picture, inputs: &[Color], outputs: &[Color]) -> Fsm {
    let mut builder = Fsm::builder(definition);
    for c in inputs {
        builder.add_input(*c);
    }
    for c in outputs {
        builder.add_output(*c);
    }
    builder.build()
}

fn graph(states: Vec<Vec<(usize, Transition)>>, registered: &[(Color, ColorType)]) -> Fsm {
    let mut colors = ColorTable::new();
    for (c, role) in registered {
        colors.insert(*c, *role);
    }
    Fsm { states: states.into_iter().map(|t| State { t }).collect(), colors }
}

fn found(captures: &Captures, key: Color) -> Vec<Color> {
    captures.get(key).expect("the color is registered").clone()
}

#[test]
fn symbol_is_found_away_from_the_origin() {
    let fsm = compile(grid(&[&[W, G, W], &[R, F, R], &[W, G, W]]), &[R], &[G]);
    let target = grid(&[
        &[W, W, W, W, W],
        &[W, W, W, G, W],
        &[W, W, R, F, R],
        &[W, W, W, G, W],
    ]);
    let captures = fsm.identify(target).expect("the symbol is there");
    assert_eq!(captures.buckets.len(), 3);
    assert_eq!(found(&captures, F), vec![F]);
    assert_eq!(found(&captures, R), vec![R, R]);
    assert_eq!(found(&captures, G), vec![G, G]);
}

#[test]
fn symbol_that_is_cut_off_by_the_border_does_not_match() {
    let fsm = compile(grid(&[&[W, G, W], &[R, F, R], &[W, G, W]]), &[R], &[G]);
    let target = grid(&[&[W, W, G], &[W, R, F], &[W, W, G]]);
    assert!(fsm.identify(target).is_none());
}

#[test]
fn only_the_first_function_pixel_anchors_the_search() {
    let fsm = compile(grid(&[&[F, R]]), &[R], &[]);
    // The first blue pixel has no red pixel to its right; the second has.
    assert!(fsm.identify(grid(&[&[F, W, W], &[W, F, R]])).is_none());
    assert!(fsm.identify(grid(&[&[F, R, W], &[W, F, W]])).is_some());
}

#[test]
fn captures_hold_every_registered_color() {
    let fsm = compile(grid(&[&[F, W]]), &[R], &[G]);
    let captures = fsm.identify(grid(&[&[W, F]])).expect("the pixel is there");
    assert_eq!(found(&captures, F), vec![F]);
    assert_eq!(found(&captures, R), vec![]);
    assert_eq!(found(&captures, G), vec![]);
    assert_eq!(captures.get(B), None);
}

#[test]
fn move_outside_the_picture_fails_alone() {
    let fsm = graph(
        vec![
            vec![
                (1, Transition::MoveRelative(0, Point::from(-5, 0))),
                (1, Transition::MoveRelative(0, Point::from(0, 7))),
                (1, Transition::MoveRelative(0, Point::from(i32::MAX, i32::MAX))),
                (1, Transition::MoveRelative(0, Point::from(i32::MIN, i32::MIN))),
                (2, Transition::Consume(F)),
            ],
            vec![],
            vec![(3, Transition::Consume(R))],
            vec![],
        ],
        &[(F, ColorType::Function), (R, ColorType::Input)],
    );
    assert!(fsm.identify(grid(&[&[F]])).is_none());
    let fsm = graph(
        vec![
            vec![
                (1, Transition::MoveRelative(0, Point::from(-5, 0))),
                (1, Transition::MoveRelative(0, Point::from(i32::MAX, 0))),
                (2, Transition::Consume(F)),
            ],
            vec![(3, Transition::Consume(R))],
            vec![],
            vec![],
        ],
        &[(F, ColorType::Function), (R, ColorType::Input)],
    );
    let captures = fsm.identify(grid(&[&[W, F]])).expect("the consumption is tried next");
    assert_eq!(found(&captures, F), vec![F]);
    assert_eq!(found(&captures, R), vec![]);
}

#[test]
fn first_transition_that_leads_to_acceptance_wins() {
    let fsm = graph(
        vec![
            vec![(1, Transition::Consume(F))],
            vec![
                (2, Transition::MoveRelative(0, Point::from(1, 0))),
                (2, Transition::MoveRelative(0, Point::from(0, 1))),
            ],
            vec![(3, Transition::Consume(R)), (3, Transition::Consume(G))],
            vec![],
        ],
        &[(F, ColorType::Function), (R, ColorType::Input), (G, ColorType::Output)],
    );
    let both = fsm.identify(grid(&[&[F, R], &[G, W]])).expect("the red pixel is right");
    assert_eq!(found(&both, R), vec![R]);
    assert_eq!(found(&both, G), vec![]);
    let below = fsm.identify(grid(&[&[F, W], &[G, W]])).expect("the green pixel is below");
    assert_eq!(found(&below, R), vec![]);
    assert_eq!(found(&below, G), vec![G]);
    assert!(fsm.identify(grid(&[&[F, W], &[W, R]])).is_none());
}

#[test]
fn white_is_never_consumed() {
    let fsm = graph(
        vec![
            vec![(1, Transition::Consume(F))],
            vec![(2, Transition::MoveRelative(0, Point::from(1, 0)))],
            vec![(3, Transition::Consume(W))],
            vec![],
        ],
        &[(F, ColorType::Function), (W, ColorType::Input)],
    );
    assert!(fsm.identify(grid(&[&[F, W]])).is_none());
}

#[test]
fn no_pixel_is_consumed_twice() {
    let fsm = graph(
        vec![vec![(1, Transition::Consume(F))], vec![(2, Transition::Consume(F))], vec![]],
        &[(F, ColorType::Function)],
    );
    assert!(fsm.identify(grid(&[&[F, F]])).is_none());
    let fsm = graph(
        vec![
            vec![(1, Transition::Consume(F))],
            vec![(2, Transition::MoveRelative(0, Point::from(1, 0)))],
            vec![(3, Transition::Consume(F))],
            vec![(4, Transition::MoveRelative(2, Point::from(-1, 0)))],
            vec![(5, Transition::Consume(F))],
            vec![],
        ],
        &[(F, ColorType::Function)],
    );
    assert!(fsm.identify(grid(&[&[F, F]])).is_none());
}

#[test]
fn pixel_of_an_unregistered_color_is_consumed_and_not_captured() {
    let fsm = graph(
        vec![
            vec![(1, Transition::Consume(F))],
            vec![(2, Transition::MoveRelative(0, Point::from(1, 0)))],
            vec![(3, Transition::Consume(G))],
            vec![],
        ],
        &[(F, ColorType::Function)],
    );
    let captures = fsm.identify(grid(&[&[F, G]])).expect("the green pixel is there");
    assert_eq!(captures.buckets.len(), 1);
    assert_eq!(found(&captures, F), vec![F]);
    assert_eq!(captures.get(G), None);
    assert!(fsm.identify(grid(&[&[F, R]])).is_none());
}

#[test]
fn group_that_is_not_open_cannot_end() {
    let fsm = graph(
        vec![
            vec![(1, Transition::EndCapture(3)), (2, Transition::Consume(F))],
            vec![],
            vec![],
        ],
        &[(F, ColorType::Function)],
    );
    let captures = fsm.identify(grid(&[&[F]])).expect("the consumption is tried next");
    assert_eq!(found(&captures, F), vec![F]);
}

#[test]
fn epsilon_does_not_go_straight_back() {
    // From state 2 the free way back to state 1 is closed, because state 2
    // was entered from state 1 by a free transition.
    let fsm = graph(
        vec![
            vec![(1, Transition::Consume(F))],
            vec![(2, Transition::Epsilon)],
            vec![(1, Transition::Epsilon), (3, Transition::Epsilon)],
            vec![],
        ],
        &[(F, ColorType::Function)],
    );
    let captures = fsm.identify(grid(&[&[F]])).expect("the way on is free");
    assert_eq!(found(&captures, F), vec![F]);
}

#[test]
fn loop_takes_as_many_pixels_as_there_are() {
    let fsm = compile(grid(&[&[F, B, B, W]]), &[], &[]);
    for length in 1..6 {
        let row: Vec<Color> = (0..length).map(|_| F).collect();
        let captures = fsm.identify(grid(&[&row])).expect("any length matches");
        assert_eq!(found(&captures, F), row);
    }
    let captures = fsm.identify(grid(&[&[F, F, F, R, F]])).expect("the loop ends at the red");
    assert_eq!(found(&captures, F), vec![F, F, F]);
}

#[test]
fn loop_goes_in_the_direction_of_its_run() {
    let fsm = compile(grid(&[&[F, W], &[B, W], &[B, W]]), &[], &[]);
    let captures = fsm
        .identify(grid(&[&[F, F, F], &[F, W, W], &[F, W, W]]))
        .expect("the column matches");
    assert_eq!(found(&captures, F), vec![F, F, F]);
}

#[test]
fn what_follows_a_loop_is_found_from_its_last_pixel() {
    let fsm = compile(grid(&[&[F, B, B, W, R]]), &[R], &[]);
    let captures = fsm.identify(grid(&[&[F, F, F, R]])).expect("the red pixel ends the row");
    assert_eq!(found(&captures, F), vec![F, F, F]);
    assert_eq!(found(&captures, R), vec![R]);
    let captures = fsm.identify(grid(&[&[F, R]])).expect("the loop may be empty");
    assert_eq!(found(&captures, F), vec![F]);
    assert_eq!(found(&captures, R), vec![R]);
    assert!(fsm.identify(grid(&[&[F, F, F, W]])).is_none());
    assert!(fsm.identify(grid(&[&[F, F, G, R]])).is_none());
}

#[test]
fn loops_of_one_group_take_the_same_number_of_pixels() {
    let fsm = compile(grid(&[&[F, B, B, F, B, B, W, R]]), &[R], &[]);
    let captures = fsm.identify(grid(&[&[F, R]])).expect("both loops are empty");
    assert_eq!(found(&captures, F), vec![F]);
    let captures = fsm.identify(grid(&[&[F, F, F, R]])).expect("one pixel each");
    assert_eq!(found(&captures, F), vec![F, F, F]);
    assert_eq!(found(&captures, R), vec![R]);
    let captures = fsm.identify(grid(&[&[F, F, F, F, F, R]])).expect("two pixels each");
    assert_eq!(found(&captures, F), vec![F, F, F, F, F]);
    assert_eq!(found(&captures, R), vec![R]);
    // An odd number of pixels cannot be shared out evenly.
    assert!(fsm.identify(grid(&[&[F, F, R]])).is_none());
    assert!(fsm.identify(grid(&[&[F, F, F, F, R]])).is_none());
}

#[test]
fn loops_of_different_groups_are_independent() {
    let other = Color::from(1, 0, 0);
    let fsm = compile(grid(&[&[F, B, B, F, other, other, W, R]]), &[R], &[]);
    let captures = fsm.identify(grid(&[&[F, F, F, F, R]])).expect("three pixels in the first");
    assert_eq!(found(&captures, F), vec![F, F, F, F]);
    assert_eq!(found(&captures, R), vec![R]);
}

#[test]
fn open_group_does_not_count_beyond_its_reference() {
    // Group 1 closes with one pixel. The second group of that id is then
    // open while two more pixels could be consumed: the second of them would
    // take its count beyond the reference, so that path is given up.
    let fsm = graph(
        vec![
            vec![(1, Transition::Consume(F))],
            vec![(2, Transition::Capture(1))],
            vec![(3, Transition::MoveRelative(0, Point::from(1, 0)))],
            vec![(4, Transition::Consume(F))],
            vec![(5, Transition::EndCapture(1))],
            vec![(6, Transition::Capture(1))],
            vec![(7, Transition::MoveRelative(0, Point::from(2, 0)))],
            vec![(8, Transition::Consume(F))],
            vec![(9, Transition::MoveRelative(0, Point::from(3, 0)))],
            vec![(10, Transition::Consume(F))],
            vec![],
        ],
        &[(F, ColorType::Function)],
    );
    assert!(fsm.identify(grid(&[&[F, F, F, F]])).is_none());
    let shorter = graph(
        vec![
            vec![(1, Transition::Consume(F))],
            vec![(2, Transition::Capture(1))],
            vec![(3, Transition::MoveRelative(0, Point::from(1, 0)))],
            vec![(4, Transition::Consume(F))],
            vec![(5, Transition::EndCapture(1))],
            vec![(6, Transition::Capture(1))],
            vec![(7, Transition::MoveRelative(0, Point::from(2, 0)))],
            vec![(8, Transition::Consume(F))],
            vec![],
        ],
        &[(F, ColorType::Function)],
    );
    let captures = shorter.identify(grid(&[&[F, F, F, F]])).expect("one pixel is within");
    assert_eq!(found(&captures, F), vec![F, F, F]);
}

#[test]
fn matching_twice_gives_the_same_result() {
    let definition = grid(&[&[F, B, B, F, B, B, W, R]]);
    let first = compile(definition.clone(), &[R], &[G]);
    let second = compile(definition, &[R], &[G]);
    for target in [
        grid(&[&[F, R]]),
        grid(&[&[F, F, F, R]]),
        grid(&[&[F, F, R]]),
        grid(&[&[W, W], &[R, G]]),
    ] {
        let a = first.identify(target.clone());
        let b = second.identify(target);
        assert_eq!(a.is_some(), b.is_some());
        if let (Some(a), Some(b)) = (a, b) {
            for key in [F, R, G] {
                assert_eq!(a.get(key), b.get(key));
            }
        }
    }
}

#[test]
fn checked_accepts_compiled_graphs() {
    assert!(compile(grid(&[&[F, R]]), &[R], &[]).checked());
    assert!(compile(grid(&[&[F, B, B, F, B, B, W, R]]), &[R], &[G]).checked());
    assert!(compile(grid(&[&[W, G, W], &[R, F, R], &[W, G, W]]), &[R], &[G]).checked());
}

#[test]
fn checked_refuses_graphs_that_cannot_be_searched() {
    let function = [(F, ColorType::Function)];
    // No state.
    assert!(!graph(vec![], &function).checked());
    // A destination that is no state.
    assert!(!graph(vec![vec![(1, Transition::Consume(F))]], &function).checked());
    // An anchor that is no state.
    assert!(!graph(
        vec![vec![(1, Transition::MoveRelative(2, Point::from(1, 0)))], vec![]],
        &function
    )
    .checked());
    // A free transition from a state to itself.
    assert!(!graph(vec![vec![(0, Transition::Epsilon)]], &function).checked());
    // A move that leads back.
    assert!(!graph(
        vec![
            vec![(1, Transition::Consume(F))],
            vec![(0, Transition::MoveRelative(0, Point::from(1, 0)))],
        ],
        &function
    )
    .checked());
    // A free way back into a state that offers another free way on.
    assert!(!graph(
        vec![
            vec![(1, Transition::Epsilon), (2, Transition::Epsilon)],
            vec![(0, Transition::Epsilon)],
            vec![(3, Transition::Epsilon)],
            vec![],
        ],
        &function
    )
    .checked());
    // No function color, and two of them.
    assert!(!graph(vec![vec![]], &[(R, ColorType::Input)]).checked());
    assert!(!graph(vec![vec![]], &[(F, ColorType::Function), (R, ColorType::Function)]).checked());
}

#[test]
fn checked_accepts_graphs_made_by_hand() {
    let function = [(F, ColorType::Function)];
    assert!(graph(vec![vec![]], &function).checked());
    assert!(graph(
        vec![
            vec![(1, Transition::Consume(F))],
            vec![(2, Transition::Epsilon)],
            vec![(1, Transition::Epsilon), (3, Transition::Epsilon)],
            vec![],
        ],
        &function
    )
    .checked());
    // A consumption may lead anywhere.
    assert!(graph(vec![vec![(0, Transition::Consume(F))]], &function).checked());
}

#[test]
fn graph_whose_only_path_closes_a_group_unevenly_matches_nothing() {
    // Group 1 closes with one pixel, and then again with none.
    let fsm = graph(
        vec![
            vec![(1, Transition::Consume(F))],
            vec![(2, Transition::Capture(1))],
            vec![(3, Transition::MoveRelative(0, Point::from(1, 0)))],
            vec![(4, Transition::Consume(F))],
            vec![(5, Transition::EndCapture(1))],
            vec![(6, Transition::Capture(1))],
            vec![(7, Transition::EndCapture(1))],
            vec![],
        ],
        &[(F, ColorType::Function)],
    );
    assert!(fsm.checked());
    for target in [
        grid(&[&[F]]),
        grid(&[&[F, F]]),
        grid(&[&[F, F, F]]),
        grid(&[&[W, F, F], &[F, F, F]]),
    ] {
        assert!(fsm.identify(target).is_none());
    }
    // With another id for the second group, the same pictures match.
    let even = graph(
        vec![
            vec![(1, Transition::Consume(F))],
            vec![(2, Transition::Capture(1))],
            vec![(3, Transition::MoveRelative(0, Point::from(1, 0)))],
            vec![(4, Transition::Consume(F))],
            vec![(5, Transition::EndCapture(1))],
            vec![(6, Transition::Capture(2))],
            vec![(7, Transition::EndCapture(2))],
            vec![],
        ],
        &[(F, ColorType::Function)],
    );
    assert!(even.identify(grid(&[&[F, F]])).is_some());
    assert!(even.identify(grid(&[&[F]])).is_none());
}

#[test]
fn result_has_one_bucket_for_each_registration() {
    let fsm = compile(grid(&[&[F, R, G]]), &[R, G, R], &[G]);
    assert_eq!(fsm.colors.entries.len(), 3);
    let captures = fsm.identify(grid(&[&[F, R, G]])).expect("the copy matches");
    assert_eq!(captures.buckets.len(), 3);
    assert_eq!(captures.buckets[0].key, F);
    assert_eq!(captures.buckets[1].key, R);
    assert_eq!(captures.buckets[2].key, G);
    assert_eq!(found(&captures, G), vec![G]);
}
