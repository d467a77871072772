use calculator::render::render;
use calculator::token::tokenize;
use calculator::token::Token::{Div, Mul, Number, Sub, LP, RP};
use calculator::transform::standardize;

#[test]
fn render_prints_tokens() {
    assert_eq!(render(&vec![Number(0), Sub, Number(12), Mul, LP, Number(3), RP]), "0-12*(3)");
    assert_eq!(render(&vec![Number(-5), Div, Number(7)]), "-5/7");
    assert_eq!(render(&vec![]), "");
}

#[test]
fn render_round_trip_of_normalized() {
    let tokens = tokenize("-10+(-2*30)/4").unwrap();
    let normalized = standardize(&tokens).unwrap();
    let printed = render(&normalized);
    assert_eq!(printed, "0-10+(0-2*30)/4");
    assert_eq!(tokenize(&printed).unwrap(), normalized);
}
