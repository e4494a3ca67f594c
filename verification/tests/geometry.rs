use ruga::geometry::point_cell;
use ruga::geometry::Cell;
use ruga::geometry::Point;
use ruga::geometry::Shape;
use ruga::geometry::CELL_SIZE;

fn cell(x: i32, y: i32) -> Cell {
    Cell { x, y }
}

#[test]
fn a_cell_is_1024_steps_wide() {
    assert_eq!(CELL_SIZE, 1024);
}

#[test]
fn circle_inside_one_cell_covers_that_cell() {
    let cells = Shape::Circle(512).cells(Point { x: 512, y: 512 });
    assert_eq!(cells, vec![cell(0, 0)]);
}

#[test]
fn circle_on_a_grid_corner_covers_four_cells_column_by_column() {
    let cells = Shape::Circle(512).cells(Point { x: 1024, y: 1024 });
    assert_eq!(cells, vec![cell(0, 0), cell(0, 1), cell(1, 0), cell(1, 1)]);
}

#[test]
fn rectangle_across_the_origin_covers_negative_cells() {
    let cells = Shape::Rectangle(100, 100).cells(Point { x: -50, y: -50 });
    assert_eq!(cells, vec![cell(-1, -1), cell(-1, 0), cell(0, -1), cell(0, 0)]);
}

#[test]
fn wall_three_cells_long_covers_three_cells() {
    let cells = Shape::Rectangle(1536, 512).cells(Point { x: 3584, y: 512 });
    assert_eq!(cells, vec![cell(2, 0), cell(3, 0), cell(4, 0)]);
}

#[test]
fn shape_touching_a_cell_along_its_border_does_not_cover_it() {
    let cells = Shape::Rectangle(512, 512).cells(Point { x: 1536, y: 512 });
    assert_eq!(cells, vec![cell(1, 0)]);
}

#[test]
fn shape_without_size_on_a_grid_line_covers_no_cell() {
    assert_eq!(Shape::Circle(0).cells(Point { x: 1024, y: 10 }), Vec::<Cell>::new());
    assert_eq!(Shape::Rectangle(0, 30).cells(Point { x: -2048, y: 10 }), Vec::<Cell>::new());
    assert_eq!(Shape::Circle(0).cells(Point { x: 1000, y: 10 }), vec![cell(0, 0)]);
}

#[test]
fn half_extents_of_both_shapes() {
    assert_eq!(Shape::Circle(7).half_extents(), (7, 7));
    assert_eq!(Shape::Rectangle(3, 9).half_extents(), (3, 9));
}

#[test]
fn point_cell_rounds_towards_minus_infinity() {
    assert_eq!(point_cell(Point { x: 0, y: 0 }), cell(0, 0));
    assert_eq!(point_cell(Point { x: 1023, y: 1024 }), cell(0, 1));
    assert_eq!(point_cell(Point { x: -1, y: -1024 }), cell(-1, -1));
    assert_eq!(point_cell(Point { x: -1025, y: 2047 }), cell(-2, 1));
}

#[test]
fn cells_at_the_edge_of_the_coordinate_range() {
    let cells = Shape::Circle(1).cells(Point { x: i32::MAX, y: i32::MIN });
    assert_eq!(cells, vec![cell(2097151, -2097153), cell(2097151, -2097152)]);
}
