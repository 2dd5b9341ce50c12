use ictc::parser::{BlockKey, BlockNode, FileNode};

#[test]
fn then_change_well_formed() {
    let parsed = FileNode::from_str(
        "if-change.foo",
        "\
0 lorem
# if-change
# if-change-should-not-be-considered
3 ipsum dolor
4 sit
# then-change then-change.foo
6 amet

8 consectetur
# if-change
10 adipiscing
11 elit
# then-change
#   then-change1.foo
#   then-change2.foo
# end-change

# if-change
18 sed
19 do
20 eiusmod
# then-change
#   if-change.foo
#   then-change3.foo
#   then-change4.foo
# end-change
26 tempor
27 incididunt
",
    )
    .unwrap();
    assert_eq!(parsed.blocks.len(), 3);
    assert_eq!(
        parsed.blocks[0],
        BlockNode {
        key: BlockKey::new("if-change.foo"),
        then_change: vec![(5, BlockKey::new("then-change.foo"))],
        if_change_lineno: 1,
        then_change_lineno: 5,
        end_change_lineno: 5,
    },
    );
    assert_eq!(
        parsed.blocks[1],
        BlockNode {
        key: BlockKey::new("if-change.foo"),
        then_change: vec![
            (13, BlockKey::new("then-change1.foo")),
            (14, BlockKey::new("then-change2.foo")),
        ],
        if_change_lineno: 9,
        then_change_lineno: 12,
        end_change_lineno: 15,
    },
    );
    assert_eq!(
        parsed.blocks[2],
        BlockNode {
        key: BlockKey::new("if-change.foo"),
        then_change: vec![
            // AST node should not strip self-referential paths;
            // that happens in a higher-level context
            (22, BlockKey::new("if-change.foo")),
            (23, BlockKey::new("then-change3.foo")),
            (24, BlockKey::new("then-change4.foo")),
        ],
        if_change_lineno: 17,
        then_change_lineno: 21,
        end_change_lineno: 25,
    },
    );
}

#[test]
fn handles_all_indentation_levels() {
    let parsed = FileNode::from_str(
        "if-change.foo",
        "\
 lorem
 # if-change
 ipsum
 dolor
 sit
 # then-change then-change1.foo
 amet

     # if-change
     consectetur
     # then-change then-change2.foo
     adipiscing

     # if-change
     elit
     # then-change
     #   then-change3.foo
     # end-change

     # if-change
     sed
     do
     # then-change
     # then-change4a.foo
     #       then-change4b.foo
     # end-change

 // IDK if I like allowing mismatched indentation levels to match up
 // with each other, but this is easier to implement than asserting
 // that comment formats must match (plus, I don't see the value in
 // adding handling for mismatches)
         # if-change
     eiusmod
     tempor
     incididunt
     # then-change then-change5.foo
 ut
 labore
 ",
    )
    .unwrap();
    assert_eq!(parsed.blocks.len(), 5);
    assert_eq!(
        parsed.blocks[0],
        BlockNode {
        key: BlockKey::new("if-change.foo"),
        then_change: vec![(5, BlockKey::new("then-change1.foo"))],
        if_change_lineno: 1,
        then_change_lineno: 5,
        end_change_lineno: 5,
    },
    );
    assert_eq!(
        parsed.blocks[1],
        BlockNode {
        key: BlockKey::new("if-change.foo"),
        then_change: vec![(10, BlockKey::new("then-change2.foo"))],
        if_change_lineno: 8,
        then_change_lineno: 10,
        end_change_lineno: 10,
    },
    );
    assert_eq!(
        parsed.blocks[2],
        BlockNode {
        key: BlockKey::new("if-change.foo"),
        then_change: vec![(16, BlockKey::new("then-change3.foo"))],
        if_change_lineno: 13,
        then_change_lineno: 15,
        end_change_lineno: 17,
    },
    );
    assert_eq!(
        parsed.blocks[3],
        BlockNode {
        key: BlockKey::new("if-change.foo"),
        then_change: vec![
            (23, BlockKey::new("then-change4a.foo")),
            (24, BlockKey::new("then-change4b.foo")),
        ],
        if_change_lineno: 19,
        then_change_lineno: 22,
        end_change_lineno: 25,
    },
    );
    assert_eq!(
        parsed.blocks[4],
        BlockNode {
        key: BlockKey::new("if-change.foo"),
        then_change: vec![(35, BlockKey::new("then-change5.foo"))],
        if_change_lineno: 31,
        then_change_lineno: 35,
        end_change_lineno: 35,
    },
    );
}

#[test]
fn handles_all_comment_formats_thenchange_inline() {
    let parsed = FileNode::from_str(
        "if-change.foo",
        "\
 lorem
 # if-change
 ipsum
 dolor
 sit
 # then-change then-change1.foo
 amet

 // if-change
 consectetur
 adipiscing
 elit
 // then-change then-change2.foo

 sed
 -- if-change
 do
 -- then-change then-change3.foo
 eiusmod

 /* if-change */
 tempor
 incididunt
 /* then-change then-change4.foo */

 <!-- if-change -->
 ut
 <!-- then-change then-change5.foo -->
 <!-- if-change-->
 labore
 et
 <!-- then-change then-change6.foo-->

 // IDK if I like allowing mismatched comment formats to line up
 // with each other, but this is easier to implement than asserting
 // that comment formats must match (plus, I don't see the value in
 // adding handling for mismatches)
 -- if-change
 dolore
 magna
 aliqua
 // then-change then-change7.foo
 ",
    )
    .unwrap();
    assert_eq!(parsed.blocks.len(), 7);
    assert_eq!(
        parsed.blocks[0],
        BlockNode {
        key: BlockKey::new("if-change.foo"),
        then_change: vec![(5, BlockKey::new("then-change1.foo"))],
        if_change_lineno: 1,
        then_change_lineno: 5,
        end_change_lineno: 5,
    },
    );
    assert_eq!(
        parsed.blocks[1],
        BlockNode {
        key: BlockKey::new("if-change.foo"),
        then_change: vec![(12, BlockKey::new("then-change2.foo"))],
        if_change_lineno: 8,
        then_change_lineno: 12,
        end_change_lineno: 12,
    },
    );
    assert_eq!(
        parsed.blocks[2],
        BlockNode {
        key: BlockKey::new("if-change.foo"),
        then_change: vec![(17, BlockKey::new("then-change3.foo"))],
        if_change_lineno: 15,
        then_change_lineno: 17,
        end_change_lineno: 17,
    },
    );
    assert_eq!(
        parsed.blocks[3],
        BlockNode {
        key: BlockKey::new("if-change.foo"),
        then_change: vec![(23, BlockKey::new("then-change4.foo"))],
        if_change_lineno: 20,
        then_change_lineno: 23,
        end_change_lineno: 23,
    },
    );
    assert_eq!(
        parsed.blocks[4],
        BlockNode {
        key: BlockKey::new("if-change.foo"),
        then_change: vec![(27, BlockKey::new("then-change5.foo"))],
        if_change_lineno: 25,
        then_change_lineno: 27,
        end_change_lineno: 27,
    },
    );
    assert_eq!(
        parsed.blocks[5],
        BlockNode {
        key: BlockKey::new("if-change.foo"),
        then_change: vec![(31, BlockKey::new("then-change6.foo"))],
        if_change_lineno: 28,
        then_change_lineno: 31,
        end_change_lineno: 31,
    },
    );
    assert_eq!(
        parsed.blocks[6],
        BlockNode {
        key: BlockKey::new("if-change.foo"),
        then_change: vec![(41, BlockKey::new("then-change7.foo"))],
        if_change_lineno: 37,
        then_change_lineno: 41,
        end_change_lineno: 41,
    },
    );
}

#[test]
fn handles_all_comment_formats_thenchange_block() {
    let parsed = FileNode::from_str(
        "if-change.foo",
        "\
 # if-change
 lorem
 ipsum
 # then-change
 #   then-change1.foo
 # end-change

 dolor
 // if-change
 sit
 // then-change
 //   then-change2a.foo
 //   then-change2b.foo
 //   then-change2c.foo
 // end-change
 amet

/* if-change */
 consectetur
 adipiscing
 elit
 /* then-change */
 /*   then-change3.foo */
 /* end-change */

 sed
 <!-- if-change -->
 do
 <!-- then-change -->
 <!--   then-change4.foo -->
 <!-- end-change -->

 <!-- if-change -->
 no whitespace required after then-change or the then-change-path
 <!-- then-change-->
 <!--   then-change5.foo-->
 <!-- end-change-->

 <!-- if-change -->
 tempor
 incididunt
 <!--
        then-change
    then-change6a.foo
            then-change6b.foo
        end-change
 -->

 <!-- if-change -->
 ut
 labore
 et
 <!-- then-change
    then-change7.foo
        end-change -->
 ",
    )
    .unwrap();
    assert_eq!(parsed.blocks.len(), 7);
    assert_eq!(
        parsed.blocks[0],
        BlockNode {
        key: BlockKey::new("if-change.foo"),
        then_change: vec![(4, BlockKey::new("then-change1.foo"))],
        if_change_lineno: 0,
        then_change_lineno: 3,
        end_change_lineno: 5,
    },
    );
    assert_eq!(
        parsed.blocks[1],
        BlockNode {
        key: BlockKey::new("if-change.foo"),
        then_change: vec![
            (11, BlockKey::new("then-change2a.foo")),
            (12, BlockKey::new("then-change2b.foo")),
            (13, BlockKey::new("then-change2c.foo")),
        ],
        if_change_lineno: 8,
        then_change_lineno: 10,
        end_change_lineno: 14,
    },
    );
    assert_eq!(
        parsed.blocks[2],
        BlockNode {
        key: BlockKey::new("if-change.foo"),
        then_change: vec![(22, BlockKey::new("then-change3.foo"))],
        if_change_lineno: 17,
        then_change_lineno: 21,
        end_change_lineno: 23,
    },
    );
    assert_eq!(
        parsed.blocks[3],
        BlockNode {
        key: BlockKey::new("if-change.foo"),
        then_change: vec![(29, BlockKey::new("then-change4.foo"))],
        if_change_lineno: 26,
        then_change_lineno: 28,
        end_change_lineno: 30,
    },
    );
    assert_eq!(
        parsed.blocks[4],
        BlockNode {
        key: BlockKey::new("if-change.foo"),
        then_change: vec![(35, BlockKey::new("then-change5.foo"))],
        if_change_lineno: 32,
        then_change_lineno: 34,
        end_change_lineno: 36,
    },
    );
    assert_eq!(
        parsed.blocks[5],
        BlockNode {
        key: BlockKey::new("if-change.foo"),
        then_change: vec![
            (43, BlockKey::new("then-change6a.foo")),
            (44, BlockKey::new("then-change6b.foo")),
        ],
        if_change_lineno: 38,
        then_change_lineno: 42,
        end_change_lineno: 45,
    },
    );
    assert_eq!(
        parsed.blocks[6],
        BlockNode {
        key: BlockKey::new("if-change.foo"),
        then_change: vec![(53, BlockKey::new("then-change7.foo"))],
        if_change_lineno: 48,
        then_change_lineno: 52,
        end_change_lineno: 54,
    },
    );
}

#[test]
fn if_change_then_change2_error_when_then_change_not_closed() {
    let parsed = FileNode::from_str(
        "if-change.foo",
        "\
lorem
# if-change
ipsum
dolor
sit
# then-change
#   then-change.foo
amet
then-change-above is not closed
",
    );
    assert!(parsed.is_err());
    assert_eq!(
        parsed.unwrap_err().to_string().as_str(),
        "if-change.foo:9 - then-change must be closed by an end-change\n"
    );
}

#[test]
fn if_change_then_change2_error_when_if_change_not_closed() {
    let parsed = FileNode::from_str(
        "if-change.foo",
        "\
lorem
# if-change
ipsum
# if-change
dolor
sit
# then-change then-change.foo
amet
then-change-above is not closed
",
    );
    assert!(parsed.is_err());
    assert_eq!(
        parsed.unwrap_err().to_string().as_str(),
        "if-change.foo:4 - if-change may not be nested\n\
         if-change.foo:7 - then-change must follow an if-change\n"
    );
}

#[test]
fn if_change_then_change_error_when_then_change_not_closed() {
    let parsed = FileNode::from_str(
        "if-change.foo",
        "\
lorem
# if-change
ipsum
dolor
sit
# then-change
#   then-change.foo
amet
then-change is not closed
",
    );
    assert!(parsed.is_err());
}

#[test]
fn if_change_then_change_error_when_if_change_not_closed() {
    let parsed = FileNode::from_str(
        "if-change.foo",
        "\
lorem
# if-change
ipsum
# if-change
dolor
sit
# then-change then-change.foo
amet
then-change is not closed
",
    );
    assert!(parsed.is_err());
}
