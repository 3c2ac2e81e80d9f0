use htmldraw::{SoftColumn, TableBuilder, TableDrawer, TableError};

#[test]
fn fixed_1() {
    let mut tb = TableBuilder::new();
    let table = tb.table_fixed("locs", 250);
    let row = tb.create_row_fixed(table, &[None, Some(44), Some(44)]).unwrap();
    let mut drawer = TableDrawer::new();
    let body = tb
        .row(row, "locs_r0", vec!["Row1".to_owned(), "1".to_owned(), "10".to_owned()], &mut drawer)
        .unwrap();
    let styles = tb.styles(&drawer);
    println!("{}", styles);
    println!("{}", body);
}

#[test]
fn soft_1() {
    let mut tb = TableBuilder::new();
    let table = tb.table_soft("pros", 742);
    let row = tb
        .create_row_soft(
            table,
            vec![SoftColumn { percentage: None, subcolumns: vec![Some(150), None, Some(40)] }],
        )
        .unwrap();
    let mut drawer = TableDrawer::new();
    let body = tb
        .row(row, "pros_r0", vec!["Slot".to_owned(), "Data".to_owned(), "10".to_owned()], &mut drawer)
        .unwrap();
    let styles = tb.styles(&drawer);
    println!("{}", styles);
    println!("{}", body);
}

#[test]
fn soft_2() {
    let mut tb = TableBuilder::new();
    let table = tb.table_soft("pros", 742);
    let row = tb
        .create_row_soft(table, vec![SoftColumn { percentage: None, subcolumns: vec![None] }])
        .unwrap();
    let mut drawer = TableDrawer::new();
    let body = tb.row(row, "pros_rh", vec!["Header".to_owned()], &mut drawer).unwrap();
    let styles = tb.styles(&drawer);
    println!("{}", styles);
    println!("{}", body);
}

// Fixed table width 250 with columns [auto, 44, 44]: the auto column resolves
// to 146 so that 146 + 44 + 44 + 4 * 2 * 2 == 250, and rendering inserts the
// values in order.
#[test]
fn fixed_scenario_resolved_widths() {
    let mut tb = TableBuilder::new();
    let table = tb.table_fixed("locs", 250);
    let row = tb.create_row_fixed(table, &[None, Some(44), Some(44)]).unwrap();
    let mut drawer = TableDrawer::new();
    let body = tb
        .row(row, "locs_r0", vec!["Row1".to_owned(), "1".to_owned(), "10".to_owned()], &mut drawer)
        .unwrap();
    let styles = tb.styles(&drawer);
    assert!(styles.contains(".locs_r0_c0 { width: 146px; }\n"));
    assert!(styles.contains(".locs_r0_c1 { width: 44px; }\n"));
    assert!(styles.contains(".locs_r0_c2 { width: 44px; }\n"));
    assert!(styles.contains(".locs_r0_c0, .locs_r0_c1, .locs_r0_c2{ padding: 4px; float: left; }\n"));
    assert!(styles.contains(".locs_r0_c0, .locs_r0_c1{ padding-right: 2px; }\n"));
    assert!(styles.contains(".locs_r0_c1, .locs_r0_c2{ padding-left: 2px; }\n"));
    assert_eq!(
        body,
        "<div class='locs_r0'>\n<div class='locs_r0_c0'>Row1</div>\n<div class='locs_r0_c1'>1\
         </div>\n<div class='locs_r0_c2'>10</div>\n</div>"
    );
}

// The leftover splits evenly over several auto columns, earlier ones taking
// the remainder: width 29 with [auto, auto, Some(10)] and padding unit 1
// leaves 11 = 6 + 5.
#[test]
fn fixed_remainder_goes_left() {
    let mut tb = TableBuilder::new();
    let table = tb.table_fixed("w", 29);
    tb.with_half_padding(table, 1).unwrap();
    let row = tb.create_row_fixed(table, &[None, None, Some(10)]).unwrap();
    let mut drawer = TableDrawer::new();
    tb.row(row, "r", vec![], &mut drawer).unwrap();
    let styles = tb.styles(&drawer);
    assert!(styles.contains(".w_r0_c0 { width: 6px; }\n"));
    assert!(styles.contains(".w_r0_c1 { width: 5px; }\n"));
    assert!(styles.contains(".w_r0_c2 { width: 10px; }\n"));
}

// RowTooWide triggers exactly below the minimum: padding 12, asked 10, one
// auto column needs width 23; 22 fails with the diagnostic numbers, 23
// compiles.
#[test]
fn fixed_row_too_long_boundary() {
    let mut tb = TableBuilder::new();
    let narrow = tb.table_fixed("narrow", 22);
    match tb.create_row_fixed(narrow, &[Some(10), None]) {
        Err(TableError::FixedRowTooLong { table, width, pads, asked, unknown }) => {
            assert_eq!(table, "narrow");
            assert_eq!(width, 22);
            assert_eq!(pads, 12);
            assert_eq!(asked, 10);
            assert_eq!(unknown, 1);
        },
        _ => panic!("expected FixedRowTooLong"),
    }
    let exact = tb.table_fixed("exact", 23);
    let row = tb.create_row_fixed(exact, &[Some(10), None]).unwrap();
    let mut drawer = TableDrawer::new();
    tb.row(row, "r", vec![], &mut drawer).unwrap();
    assert!(tb.styles(&drawer).contains(".exact_r0_c1 { width: 1px; }\n"));
}

// With every width declared, an exact fit compiles and any surplus is
// rejected by the defensive total check.
#[test]
fn fixed_all_declared_exact_fit() {
    let mut tb = TableBuilder::new();
    let t = tb.table_fixed("full", 62);
    assert!(tb.create_row_fixed(t, &[Some(25), Some(25)]).is_ok());
    let t2 = tb.table_fixed("over", 63);
    assert!(matches!(
        tb.create_row_fixed(t2, &[Some(25), Some(25)]),
        Err(TableError::FixedRowTooLong { .. })
    ));
}

// Soft table minimum width 742 with [150, flex, 40]: both flanks fit and the
// values land permuted per the left/flex/right emission order.
#[test]
fn soft_scenario_permutation() {
    let mut tb = TableBuilder::new();
    let table = tb.table_soft("pros", 742);
    let row = tb
        .create_row_soft(
            table,
            vec![SoftColumn { percentage: None, subcolumns: vec![Some(150), None, Some(40)] }],
        )
        .unwrap();
    let mut drawer = TableDrawer::new();
    let body = tb
        .row(row, "pros_r0", vec!["Slot".to_owned(), "Data".to_owned(), "10".to_owned()], &mut drawer)
        .unwrap();
    assert_eq!(
        body,
        "<div class='pros_r0'>\n<div class='pros_l'>Slot</div>\n<div class='pros_r'>\n\
         <div class='row'>\n<div class='pros_r_r'>10</div>\n<div class='pros_r_l'>Data\
         </div>\n</div>\n</div>\n</div>"
    );
    let styles = tb.styles(&drawer);
    // left flank 150 + 4 + 2 = 156, right flank 40 + 2 + 4 = 46, both below 742
    assert!(styles.contains(".pros_l { padding-left: 4px; padding-right: 2px; width: 150px; float: left; overflow: hidden; }\n"));
    assert!(styles.contains(".pros_r_r { padding-left: 2px; padding-right: 4px; width: 40px; float: right; overflow: hidden; }\n"));
    assert!(styles.contains(".pros_r { min-width: 586px; margin-left: 156px; overflow: hidden; }\n"));
    assert!(styles.contains(".pros_r_l { padding-left: 2px; padding-right: 2px; min-width: 536px; margin-right: 46px; overflow: hidden; }\n"));
}

// A lone flexible column compiles as one full-width fragment with a single
// insertion point.
#[test]
fn soft_scenario_single_flex() {
    let mut tb = TableBuilder::new();
    let table = tb.table_soft("pros", 742);
    let row = tb
        .create_row_soft(table, vec![SoftColumn { percentage: None, subcolumns: vec![None] }])
        .unwrap();
    let mut drawer = TableDrawer::new();
    let body = tb.row(row, "pros_rh", vec!["Header".to_owned()], &mut drawer).unwrap();
    assert_eq!(body, "<div class='pros_rh'>\n<div class='pros'>Header</div>\n</div>");
    let styles = tb.styles(&drawer);
    assert!(styles.contains(
        ".pros { padding-left: 4px; padding-right: 4px; min-width: 734px; margin-left: 0px; overflow: hidden; }\n"
    ));
    assert!(styles.contains(".pros{ padding-top: 4px; padding-bottom: 4px; }\n"));
}

// A soft spec without a flexible slot is rejected, as is one with two.
#[test]
fn soft_flex_slot_count() {
    let mut tb = TableBuilder::new();
    let table = tb.table_soft("s", 742);
    assert!(matches!(
        tb.create_row_soft(
            table,
            vec![SoftColumn { percentage: None, subcolumns: vec![Some(1), Some(2)] }]
        ),
        Err(TableError::MustBeOneSoftColumn(_))
    ));
    assert!(matches!(
        tb.create_row_soft(
            table,
            vec![SoftColumn { percentage: None, subcolumns: vec![None, Some(2), None] }]
        ),
        Err(TableError::MustBeOneSoftColumn(_))
    ));
    assert!(matches!(
        tb.create_row_soft(
            table,
            vec![SoftColumn { percentage: None, subcolumns: vec![] }]
        ),
        Err(TableError::MustBeOneSoftColumn(_))
    ));
    assert!(matches!(
        tb.create_row_soft(table, vec![]),
        Err(TableError::EmptySoft(_))
    ));
}

// A minimum width that does not exceed the fixed flank is rejected.
#[test]
fn soft_min_width_too_small() {
    let mut tb = TableBuilder::new();
    let table = tb.table_soft("tight", 10);
    match tb.create_row_soft(
        table,
        vec![SoftColumn { percentage: None, subcolumns: vec![Some(100), None] }],
    ) {
        Err(TableError::SoftRowTooLong { table, min_width }) => {
            assert_eq!(table, "tight");
            assert_eq!(min_width, 10);
        },
        _ => panic!("expected SoftRowTooLong"),
    }
}

// Kind mismatches and unresolved handles are rejected without touching
// anything.
#[test]
fn handle_and_kind_errors() {
    let mut tb = TableBuilder::new();
    let fixed = tb.table_fixed("f", 50);
    let soft = tb.table_soft("s", 50);
    assert!(matches!(
        tb.create_row_soft(fixed, vec![SoftColumn { percentage: None, subcolumns: vec![None] }]),
        Err(TableError::SoftOnFixed(_))
    ));
    assert!(matches!(tb.create_row_fixed(soft, &[None]), Err(TableError::FixedOnSoft(_))));

    let mut other = TableBuilder::new();
    let foreign_table = other.table_fixed("x", 100);
    let foreign_row = other.create_row_fixed(foreign_table, &[None]).unwrap();
    let mut empty = TableBuilder::new();
    assert!(matches!(
        empty.with_half_padding(foreign_table, 1),
        Err(TableError::UnknownTable(_))
    ));
    let mut drawer = TableDrawer::new();
    assert!(matches!(
        empty.row(foreign_row, "c", vec![], &mut drawer),
        Err(TableError::UnknownRow(_))
    ));
    assert_eq!(empty.styles(&drawer), "");
}

// Missing trailing values render as the placeholder; excess values are
// ignored.
#[test]
fn render_padding_and_excess() {
    let mut tb = TableBuilder::new();
    let table = tb.table_fixed("p", 250);
    let row = tb.create_row_fixed(table, &[None, Some(44), Some(44)]).unwrap();
    let mut drawer = TableDrawer::new();
    let short = tb.row(row, "r", vec!["only".to_owned()], &mut drawer).unwrap();
    assert_eq!(
        short,
        "<div class='r'>\n<div class='p_r0_c0'>only</div>\n<div class='p_r0_c1'>&nbsp;\
         </div>\n<div class='p_r0_c2'>&nbsp;</div>\n</div>"
    );
    let exact = tb
        .row(row, "r", vec!["a".to_owned(), "b".to_owned(), "c".to_owned()], &mut drawer)
        .unwrap();
    let excess = tb
        .row(
            row,
            "r",
            vec!["a".to_owned(), "b".to_owned(), "c".to_owned(), "dropped".to_owned()],
            &mut drawer,
        )
        .unwrap();
    assert_eq!(exact, excess);
}

// A compiled row with zero insertion points renders as an empty result, yet
// still counts as used for the pass's CSS.
#[test]
fn render_zero_insertion_points() {
    let mut tb = TableBuilder::new();
    let t = tb.table_fixed("none", 4);
    let row = tb.create_row_fixed(t, &[]).unwrap();
    let mut drawer = TableDrawer::new();
    let body = tb.row(row, "wrap", vec!["ignored".to_owned()], &mut drawer).unwrap();
    assert_eq!(body, "");
    assert!(tb.styles(&drawer).contains("{ padding: 4px; float: left; }\n"));
}

// Excess values are ignored on permuted (soft) rows too.
#[test]
fn render_excess_on_permuted_row() {
    let mut tb = TableBuilder::new();
    let table = tb.table_soft("sx", 742);
    let row = tb
        .create_row_soft(
            table,
            vec![SoftColumn { percentage: None, subcolumns: vec![Some(150), None, Some(40)] }],
        )
        .unwrap();
    let mut drawer = TableDrawer::new();
    let exact = tb
        .row(row, "r", vec!["a".to_owned(), "b".to_owned(), "c".to_owned()], &mut drawer)
        .unwrap();
    let excess = tb
        .row(
            row,
            "r",
            vec!["a".to_owned(), "b".to_owned(), "c".to_owned(), "dropped".to_owned()],
            &mut drawer,
        )
        .unwrap();
    assert_eq!(exact, excess);
    assert!(!excess.contains("dropped"));
}

// The emitted CSS covers exactly the rows a pass rendered, in ascending
// handle order whatever the render order, and rendering a row twice adds
// nothing.
#[test]
fn styles_scoped_and_ordered() {
    let mut tb = TableBuilder::new();
    let t = tb.table_fixed("o", 50);
    let row0 = tb.create_row_fixed(t, &[None]).unwrap();
    let row1 = tb.create_row_fixed(t, &[None]).unwrap();
    let row2 = tb.create_row_fixed(t, &[None]).unwrap();

    let mut fwd = TableDrawer::new();
    tb.row(row0, "c", vec![], &mut fwd).unwrap();
    tb.row(row2, "c", vec![], &mut fwd).unwrap();
    let mut rev = TableDrawer::new();
    tb.row(row2, "c", vec![], &mut rev).unwrap();
    tb.row(row0, "c", vec![], &mut rev).unwrap();
    tb.row(row2, "c", vec![], &mut rev).unwrap();
    assert_eq!(tb.styles(&fwd), tb.styles(&rev));

    let styles = tb.styles(&fwd);
    assert!(styles.contains("o_r0_c0"));
    assert!(!styles.contains("o_r1_c0"));
    assert!(styles.contains("o_r2_c0"));
    let p0 = styles.find("o_r0_c0").unwrap();
    let p2 = styles.find("o_r2_c0").unwrap();
    assert!(p0 < p2);

    let mut once = TableDrawer::new();
    tb.row(row1, "c", vec![], &mut once).unwrap();
    let first = tb.styles(&once);
    tb.row(row1, "c", vec![], &mut once).unwrap();
    assert_eq!(first, tb.styles(&once));
}

// The padding unit scales every derived measure.
#[test]
fn half_padding_applies() {
    let mut tb = TableBuilder::new();
    let t = tb.table_fixed("hp", 26);
    tb.with_half_padding(t, 3).unwrap();
    // pads = (1 + 1) * 2 * 3 = 12, leftover 14
    let row = tb.create_row_fixed(t, &[None]).unwrap();
    let mut drawer = TableDrawer::new();
    tb.row(row, "r", vec![], &mut drawer).unwrap();
    let styles = tb.styles(&drawer);
    assert!(styles.contains(".hp_r0_c0 { width: 14px; }\n"));
    assert!(styles.contains("{ padding: 6px; float: left; }\n"));
}
