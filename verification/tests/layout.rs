use gate_diagram::expression_parser::{parse_boolean_expression, Gate, GateType};
use gate_diagram::spritesheet::{sprite_info, Sprite, SpriteInfo};

fn parse_ok(s: &str) -> Gate {
    parse_boolean_expression(s).expect("expression should parse")
}

#[test]
fn depth_counts_levels() {
    assert_eq!(parse_ok("a").depth(), 1);
    assert_eq!(parse_ok("ab").depth(), 2);
    assert_eq!(parse_ok("a+bc").depth(), 3);
    assert_eq!(parse_ok("(a+b)*(c+d)").depth(), 3);
}

#[test]
fn column_sizes_order_leaf_most_first() {
    assert_eq!(parse_ok("a").column_sizes(), vec![1]);
    assert_eq!(parse_ok("ab").column_sizes(), vec![2, 1]);
    assert_eq!(parse_ok("a+bc").column_sizes(), vec![2, 2, 1]);
}

#[test]
fn column_sizes_on_perfect_tree() {
    // A perfect binary tree of depth 3: 4 leaves, 2 inner OR gates,
    // 1 root AND.  One entry per level, the last is the root alone,
    // and the preceding entries sum to leaves plus non-root internal
    // nodes.
    let g = parse_ok("(a+b)*(c+d)");
    let cols = g.column_sizes();
    assert_eq!(cols, vec![4, 2, 1]);
    assert_eq!(cols.len(), 3);
    assert_eq!(*cols.last().unwrap(), 1);
    let preceding: u32 = cols[..cols.len() - 1].iter().sum();
    assert_eq!(preceding, 4 + 2);
}

#[test]
fn largest_column_is_max_over_levels() {
    assert_eq!(parse_ok("a").size_of_largest_column(), 1);
    assert_eq!(parse_ok("(a+b)*(c+d)").size_of_largest_column(), 4);
    assert_eq!(parse_ok("a+bc").size_of_largest_column(), 2);
}

#[test]
fn child_yoffset_spreads_by_largest_column() {
    let g = parse_ok("a+b");
    // The root's subtree has widest column 2: siblings spread by 80.
    assert_eq!(g.child_yoffset_function(1000, 0, 2), 1000 - 80);
    assert_eq!(g.child_yoffset_function(1000, 1, 2), 1000 + 80);
    // A leaf's subtree has widest column 1: siblings spread by 40.
    assert_eq!(g.get_inputs()[0].child_yoffset_function(1000, 0, 2), 960);
    assert_eq!(g.get_inputs()[1].child_yoffset_function(1000, 1, 2), 1040);
    // A single sibling inherits the origin unchanged.
    assert_eq!(g.child_yoffset_function(123, 0, 1), 123);
}

#[test]
fn drawn_image_width_is_linear_in_depth() {
    assert_eq!(parse_ok("a").calculate_drawn_image_width(), 130);
    assert_eq!(parse_ok("ab").calculate_drawn_image_width(), 230);
    assert_eq!(parse_ok("a+bc").calculate_drawn_image_width(), 330);
}

#[test]
fn drawn_image_height_spans_the_walk() {
    // A lone input: the walk stays at the seed, span 0, height 20.
    assert_eq!(parse_ok("a").calculate_drawn_image_height(), 20);
    // "ab": seed 200, root lands at 120, leaves at 80 and 160; the
    // maximum accumulates one padding of 40: 2 * (200 - 80) + 20.
    assert_eq!(parse_ok("ab").calculate_drawn_image_height(), 260);
}

#[test]
fn adjusted_origin_passes_through() {
    let g = parse_ok("a+b");
    assert_eq!(g.adjusted_origin(370), 370);
    assert_eq!(g.adjusted_origin(0), 0);
}

#[test]
fn layout_queries_are_pure() {
    let g = parse_ok("(a+b)c'");
    assert_eq!(g.depth(), g.depth());
    assert_eq!(g.column_sizes(), g.column_sizes());
    assert_eq!(g.size_of_largest_column(), g.size_of_largest_column());
    assert_eq!(
        g.calculate_drawn_image_width(),
        g.calculate_drawn_image_width()
    );
    assert_eq!(
        g.calculate_drawn_image_height(),
        g.calculate_drawn_image_height()
    );
    assert_eq!(
        g.child_yoffset_function(500, 1, 2),
        g.child_yoffset_function(500, 1, 2)
    );
}

#[test]
fn sprite_type_mirrors_gate_type() {
    let g = parse_ok("a+b'");
    assert_eq!(g.get_type(), GateType::OR);
    assert_eq!(g.sprite_type(), Sprite::OR);
    assert_eq!(g.get_inputs()[0].sprite_type(), Sprite::INPUT);
    assert_eq!(g.get_inputs()[1].sprite_type(), Sprite::NOT);
    assert_eq!(parse_ok("ab").sprite_type(), Sprite::AND);
}

#[test]
fn sprite_info_geometry_table() {
    let and = sprite_info(Sprite::AND);
    assert_eq!(and.width, 90);
    assert_eq!(and.height, 40);
    assert_eq!(and.inputs, vec![9, 29]);
    assert_eq!(and.outputs, vec![19]);
    let not = sprite_info(Sprite::NOT);
    assert_eq!(not.inputs, vec![21]);
    assert_eq!(not.outputs, vec![21]);
    let input = sprite_info(Sprite::INPUT);
    assert!(input.inputs.is_empty());
    assert_eq!(input.outputs, vec![21]);
    let nor = sprite_info(Sprite::NOR);
    assert_eq!(nor.inputs, vec![9, 29]);
    assert_eq!(nor.outputs, vec![19]);
}

#[test]
fn sprite_info_new_stores_fields() {
    let info = SpriteInfo::new(90, 40, vec![9, 29], vec![19]);
    assert_eq!(info.width, 90);
    assert_eq!(info.height, 40);
    assert_eq!(info.inputs, vec![9, 29]);
    assert_eq!(info.outputs, vec![19]);
}
