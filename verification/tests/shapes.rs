use quartz::shapes::{
    combinator_of, fits, is_generator, loops_back, out_routing, swappable, Combinator, OutRouting,
    Shape,
};

fn shape(inputs: usize, outputs: usize) -> Shape {
    Shape { inputs, outputs }
}

#[test]
fn combinators_of_ops() {
    assert_eq!(combinator_of(76), Some(Combinator::Branch));
    assert_eq!(combinator_of(88), Some(Combinator::Branch));
    assert_eq!(combinator_of(77), Some(Combinator::Bus));
    assert_eq!(combinator_of(87), Some(Combinator::Bus));
    assert_eq!(combinator_of(78), Some(Combinator::Pipe));
    assert_eq!(combinator_of(85), Some(Combinator::Pipe));
    assert_eq!(combinator_of(79), Some(Combinator::Stack));
    assert_eq!(combinator_of(86), Some(Combinator::Stack));
    assert_eq!(combinator_of(80), Some(Combinator::Sum));
    assert_eq!(combinator_of(82), Some(Combinator::Sum));
    assert_eq!(combinator_of(81), Some(Combinator::Product));
    assert_eq!(combinator_of(83), Some(Combinator::Product));
    assert_eq!(combinator_of(84), Some(Combinator::Difference));
    assert_eq!(combinator_of(89), None);
    assert_eq!(combinator_of(0), None);
}

#[test]
fn fits_follow_the_combinator() {
    assert!(fits(Combinator::Pipe, shape(1, 2), shape(2, 1)));
    assert!(!fits(Combinator::Pipe, shape(1, 2), shape(1, 1)));
    assert!(fits(Combinator::Branch, shape(1, 2), shape(1, 5)));
    assert!(!fits(Combinator::Branch, shape(0, 2), shape(1, 2)));
    assert!(fits(Combinator::Bus, shape(1, 2), shape(1, 2)));
    assert!(!fits(Combinator::Bus, shape(1, 2), shape(1, 1)));
    assert!(fits(Combinator::Stack, shape(3, 0), shape(0, 7)));
    assert!(fits(Combinator::Sum, shape(0, 2), shape(4, 2)));
    assert!(!fits(Combinator::Product, shape(0, 2), shape(0, 1)));
    assert!(fits(Combinator::Difference, shape(1, 1), shape(0, 1)));
}

#[test]
fn generators_and_other_checks() {
    assert!(is_generator(shape(0, 1)));
    assert!(!is_generator(shape(0, 2)));
    assert!(!is_generator(shape(1, 1)));
    assert!(swappable(shape(2, 2), shape(2, 2)));
    assert!(!swappable(shape(2, 2), shape(2, 1)));
    assert!(loops_back(shape(2, 2)));
    assert!(!loops_back(shape(0, 1)));
}

#[test]
fn output_routing() {
    assert_eq!(out_routing(Some(shape(0, 1))), OutRouting::Left);
    assert_eq!(out_routing(Some(shape(0, 2))), OutRouting::Stereo);
    assert_eq!(out_routing(Some(shape(1, 2))), OutRouting::Silence);
    assert_eq!(out_routing(Some(shape(0, 3))), OutRouting::Silence);
    assert_eq!(out_routing(None), OutRouting::Silence);
}
