use gol_builder::BuildGol;
use gol_builder::GoL;
use gol_builder::GoLBuilder;

#[test]
fn should_create_empty_state() {
    let gol: GoL = "....\n....\n....\n....\n....".build_gol().unwrap();

    assert_eq!(GoL::empty(5, 4), gol);
}

#[test]
fn should_create_void_state() {
    let gol: GoL = "".build_gol().unwrap();

    assert_eq!(GoL::empty(0, 0), gol);
}

#[test]
fn should_create_no_trivial_state() {
    let gol: GoL = "..*.\n.+..\n....\n..**\n++..".build_gol().unwrap();

    let expected = GoL::empty(5, 4)
        .live(0, 2)
        .live(1, 1)
        .live(3, 2)
        .live(3, 3)
        .live(4, 0)
        .live(4, 1);

    assert_eq!(expected, gol);
}

#[test]
fn should_get_space_as_empty() {
    let gol: GoL = "..*\n.+\n.  .\n..**\n++  ".build_gol().unwrap();

    let expected = GoL::empty(5, 4)
        .live(0, 2)
        .live(1, 1)
        .live(3, 2)
        .live(3, 3)
        .live(4, 0)
        .live(4, 1);

    assert_eq!(expected, gol);
}
