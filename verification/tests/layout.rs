use plonk_core::circuit::{
    Advice, Any, Assignment, Call, Cell, Challenge, Column, Exchange, Fixed, Instance,
    RegionColumn, RegionIndex, Reply, Selector, TableColumn,
};
use plonk_core::dev::{column_steps, Fp, Recorder, StackedRegions};
use plonk_core::floor_planner::{
    Circuit, SimpleFloorPlanner, SingleChipLayouter, SingleChipLayouterRegion,
};
use plonk_core::layouter::{RegionOp, RegionShape};
use plonk_core::plonk::{Error, TableError};
use plonk_core::table_layouter::TableCell;

fn advice(index: usize) -> Column<Advice> {
    Column::<Advice>::new(index)
}

fn fixed(index: usize) -> Column<Fixed> {
    Column::<Fixed>::new(index)
}

fn instance(index: usize) -> Column<Instance> {
    Column::<Instance>::new(index)
}

fn any_advice(index: usize) -> Column<Any> {
    Column::<Any>::new(index, Any::Advice)
}

fn any_fixed(index: usize) -> Column<Any> {
    Column::<Any>::new(index, Any::Fixed)
}

fn any_instance(index: usize) -> Column<Any> {
    Column::<Any>::new(index, Any::Instance)
}

fn done(call: Call<Fp>) -> Exchange<Fp> {
    Exchange { call, reply: Reply::Done }
}

fn advice_rows(column: usize, rows: usize) -> Vec<RegionOp<Fp>> {
    let mut ops = Vec::new();
    for offset in 0..rows {
        ops.push(RegionOp::AssignAdvice {
            column: advice(column),
            offset,
            to: Some(Fp::new(offset as u64 + 1)),
        });
    }
    ops
}

fn layouter(rows: usize, constants: Vec<Column<Fixed>>) -> SingleChipLayouter<Fp, Recorder<Fp>> {
    let cs: Recorder<Fp> = Recorder::new(5, rows, vec![vec![Fp::new(11), Fp::new(12)]]);
    SingleChipLayouter::new(cs, constants).unwrap()
}

fn starts(layouter: &SingleChipLayouter<Fp, Recorder<Fp>>) -> Vec<usize> {
    layouter.regions().iter().map(|start| start.0).collect()
}

#[test]
fn two_regions_on_one_column_are_stacked_in_order() {
    let mut layouter = layouter(16, vec![]);
    layouter.assign_region("a", &advice_rows(0, 3)).unwrap();
    layouter.assign_region("b", &advice_rows(0, 2)).unwrap();
    assert_eq!(starts(&layouter), vec![0, 3]);
    assert_eq!(layouter.first_free_row(&RegionColumn::Column(any_advice(0))), 5);
}

#[test]
fn constant_without_constants_column_is_refused() {
    let mut layouter = layouter(16, vec![]);
    let ops = vec![RegionOp::AssignAdviceFromConstant {
        column: advice(0),
        offset: 0,
        constant: Fp::new(7),
    }];
    let r = layouter.assign_region("only", &ops);
    assert_eq!(r, Err(Error::NotEnoughColumnsForConstants));
    // The region itself was laid out before the constants were missed.
    assert_eq!(
        layouter.cs().log(),
        &vec![
            done(Call::EnterRegion),
            done(Call::AssignAdvice { column: advice(0), row: 0, value: Some(Fp::new(7)) }),
            done(Call::ExitRegion),
        ]
    );
}

#[test]
fn region_without_constants_needs_no_constants_column() {
    let mut layouter = layouter(16, vec![]);
    assert!(layouter.assign_region("plain", &advice_rows(0, 1)).is_ok());
}

#[test]
fn regions_on_shared_columns_never_overlap() {
    let mut layouter = layouter(64, vec![]);
    let a = vec![
        RegionOp::AssignAdvice { column: advice(0), offset: 2, to: None },
        RegionOp::EnableSelector { selector: Selector(0), offset: 0 },
    ];
    let b = vec![
        RegionOp::AssignAdvice { column: advice(1), offset: 0, to: None },
        RegionOp::AssignFixed { column: fixed(0), offset: 4, to: None },
    ];
    let c = vec![
        RegionOp::AssignAdvice { column: advice(0), offset: 0, to: None },
        RegionOp::AssignAdvice { column: advice(1), offset: 1, to: None },
    ];
    let d = vec![RegionOp::EnableSelector { selector: Selector(0), offset: 0 }];
    for ops in [&a, &b, &c, &d] {
        layouter.assign_region("region", ops).unwrap();
    }
    assert_eq!(starts(&layouter), vec![0, 0, 5, 3]);
    assert_eq!(layouter.first_free_row(&RegionColumn::Column(any_advice(0))), 7);
    assert_eq!(layouter.first_free_row(&RegionColumn::Column(any_advice(1))), 7);
    assert_eq!(layouter.first_free_row(&RegionColumn::Column(any_fixed(0))), 5);
    assert_eq!(layouter.first_free_row(&RegionColumn::Selector(Selector(0))), 4);
    assert_eq!(layouter.first_free_row(&RegionColumn::Selector(Selector(9))), 0);

    // What each region claims: its columns, and its rows from its start.
    let a0 = RegionColumn::Column(any_advice(0));
    let a1 = RegionColumn::Column(any_advice(1));
    let f0 = RegionColumn::Column(any_fixed(0));
    let s0 = RegionColumn::Selector(Selector(0));
    let claims = vec![
        (vec![a0, s0], 0usize, 3usize),
        (vec![a1, f0], 0, 5),
        (vec![a0, a1], 5, 2),
        (vec![s0], 3, 1),
    ];
    for i in 0..claims.len() {
        for j in (i + 1)..claims.len() {
            for column in &claims[i].0 {
                if claims[j].0.contains(column) {
                    // The region declared later lies below the other.
                    assert!(claims[i].1 + claims[i].2 <= claims[j].1);
                }
            }
        }
    }
}

#[test]
fn region_measures_the_same_steps_it_assigns() {
    let ops: Vec<RegionOp<Fp>> = vec![
        RegionOp::AssignAdvice { column: advice(3), offset: 6, to: None },
        RegionOp::EnableSelector { selector: Selector(2), offset: 1 },
        RegionOp::AssignAdvice { column: advice(3), offset: 0, to: None },
        RegionOp::ConstrainEqual {
            left: Cell { region_index: RegionIndex(0), row_offset: 0, column: any_advice(3) },
            right: Cell { region_index: RegionIndex(0), row_offset: 6, column: any_advice(3) },
        },
        RegionOp::NameColumn { column: any_fixed(8) },
    ];
    let shape = RegionShape::probe(RegionIndex(4), &ops);
    assert_eq!(shape.region_index(), RegionIndex(4));
    assert_eq!(shape.row_count(), 7);
    assert_eq!(
        shape.columns(),
        &vec![RegionColumn::Column(any_advice(3)), RegionColumn::Selector(Selector(2))]
    );
    let empty = RegionShape::probe(RegionIndex(0), &Vec::<RegionOp<Fp>>::new());
    assert_eq!(empty.row_count(), 0);
    assert!(empty.columns().is_empty());
}

fn busy_region() -> Vec<RegionOp<Fp>> {
    vec![
        RegionOp::EnableSelector { selector: Selector(0), offset: 0 },
        RegionOp::NameColumn { column: any_advice(0) },
        RegionOp::AssignAdvice { column: advice(0), offset: 0, to: Some(Fp::new(9)) },
        RegionOp::AssignAdviceFromConstant { column: advice(0), offset: 1, constant: Fp::new(3) },
        RegionOp::AssignAdviceFromInstance {
            instance: instance(0),
            row: 1,
            advice: advice(1),
            offset: 0,
        },
        RegionOp::AssignFixed { column: fixed(5), offset: 2, to: Some(Fp::new(8)) },
        RegionOp::ConstrainConstant {
            cell: Cell { region_index: RegionIndex(0), row_offset: 1, column: any_advice(0) },
            constant: Fp::new(5),
        },
        RegionOp::ConstrainEqual {
            left: Cell { region_index: RegionIndex(1), row_offset: 0, column: any_advice(0) },
            right: Cell { region_index: RegionIndex(0), row_offset: 1, column: any_advice(0) },
        },
    ]
}

fn lay_out_busy_region() -> SingleChipLayouter<Fp, Recorder<Fp>> {
    let mut layouter = layouter(32, vec![fixed(2), fixed(3)]);
    let first = vec![RegionOp::AssignAdvice { column: advice(0), offset: 1, to: Some(Fp::new(5)) }];
    assert_eq!(
        layouter.assign_region("first", &first),
        Ok(vec![Cell { region_index: RegionIndex(0), row_offset: 1, column: any_advice(0) }])
    );
    let cells = layouter.assign_region("second", &busy_region()).unwrap();
    assert_eq!(
        cells,
        vec![
            Cell { region_index: RegionIndex(1), row_offset: 0, column: any_advice(0) },
            Cell { region_index: RegionIndex(1), row_offset: 1, column: any_advice(0) },
            Cell { region_index: RegionIndex(1), row_offset: 0, column: any_advice(1) },
            Cell { region_index: RegionIndex(1), row_offset: 2, column: any_fixed(5) },
        ]
    );
    layouter
}

#[test]
fn every_step_reaches_the_constraint_system_at_its_absolute_row() {
    let layouter = lay_out_busy_region();
    assert_eq!(starts(&layouter), vec![0, 2]);
    let expected = vec![
        done(Call::EnterRegion),
        done(Call::AssignAdvice { column: advice(0), row: 1, value: Some(Fp::new(5)) }),
        done(Call::ExitRegion),
        done(Call::EnterRegion),
        done(Call::EnableSelector { selector: Selector(0), row: 2 }),
        done(Call::AnnotateColumn { column: any_advice(0) }),
        done(Call::AssignAdvice { column: advice(0), row: 2, value: Some(Fp::new(9)) }),
        done(Call::AssignAdvice { column: advice(0), row: 3, value: Some(Fp::new(3)) }),
        Exchange {
            call: Call::QueryInstance { column: instance(0), row: 1 },
            reply: Reply::Value(Some(Fp::new(12))),
        },
        done(Call::AssignAdvice { column: advice(1), row: 2, value: Some(Fp::new(12)) }),
        done(Call::Copy {
            left_column: any_advice(1),
            left_row: 2,
            right_column: any_instance(0),
            right_row: 1,
        }),
        done(Call::AssignFixed { column: fixed(5), row: 4, value: Some(Fp::new(8)) }),
        done(Call::Copy {
            left_column: any_advice(0),
            left_row: 2,
            right_column: any_advice(0),
            right_row: 1,
        }),
        done(Call::ExitRegion),
        // The constants, first come first, in the first constants column.
        done(Call::AssignFixed { column: fixed(2), row: 0, value: Some(Fp::new(3)) }),
        done(Call::Copy {
            left_column: any_fixed(2),
            left_row: 0,
            right_column: any_advice(0),
            right_row: 3,
        }),
        done(Call::AssignFixed { column: fixed(2), row: 1, value: Some(Fp::new(5)) }),
        done(Call::Copy {
            left_column: any_fixed(2),
            left_row: 1,
            right_column: any_advice(0),
            right_row: 1,
        }),
    ];
    assert_eq!(layouter.cs().log(), &expected);
}

#[test]
fn replaying_constants_gives_the_same_rows_and_copies() {
    let once = lay_out_busy_region();
    let again = lay_out_busy_region();
    assert_eq!(once.cs().log(), again.cs().log());
    assert_eq!(starts(&once), starts(&again));
}

#[test]
fn constants_take_rows_of_their_column() {
    let mut layouter = lay_out_busy_region();
    let key = RegionColumn::Column(any_fixed(2));
    assert_eq!(layouter.first_free_row(&key), 2);
    // The second constants column is never used.
    assert_eq!(layouter.first_free_row(&RegionColumn::Column(any_fixed(3))), 0);
    // A later region on the constants column starts below the constants.
    let ops = vec![RegionOp::AssignFixed { column: fixed(2), offset: 0, to: Some(Fp::new(1)) }];
    layouter.assign_region("third", &ops).unwrap();
    assert_eq!(starts(&layouter), vec![0, 2, 2]);
    // And constants asked for by a region that covers their column go below it.
    let ops = vec![
        RegionOp::AssignFixed { column: fixed(2), offset: 1, to: None },
        RegionOp::AssignAdviceFromConstant { column: advice(7), offset: 0, constant: Fp::new(6) },
    ];
    layouter.assign_region("fourth", &ops).unwrap();
    assert_eq!(starts(&layouter), vec![0, 2, 2, 3]);
    let log = layouter.cs().log();
    assert_eq!(
        log[log.len() - 2],
        done(Call::AssignFixed { column: fixed(2), row: 5, value: Some(Fp::new(6)) })
    );
    assert_eq!(layouter.first_free_row(&key), 6);
}

#[test]
fn refusal_stops_the_region_and_is_handed_on() {
    let mut layouter = layouter(2, vec![fixed(0)]);
    let r = layouter.assign_region("tall", &advice_rows(0, 3));
    let refusal = Error::NotEnoughRowsAvailable { current_k: 5 };
    assert_eq!(r, Err(refusal));
    assert_eq!(
        layouter.cs().log(),
        &vec![
            done(Call::EnterRegion),
            done(Call::AssignAdvice { column: advice(0), row: 0, value: Some(Fp::new(1)) }),
            done(Call::AssignAdvice { column: advice(0), row: 1, value: Some(Fp::new(2)) }),
            Exchange {
                call: Call::AssignAdvice { column: advice(0), row: 2, value: Some(Fp::new(3)) },
                reply: Reply::Failed(refusal),
            },
        ]
    );
    // The region keeps its place.
    assert_eq!(starts(&layouter), vec![0]);
    assert_eq!(layouter.first_free_row(&RegionColumn::Column(any_advice(0))), 3);
}

#[test]
fn refusal_of_an_instance_query_stops_the_step() {
    let mut layouter = layouter(8, vec![]);
    let ops = vec![RegionOp::AssignAdviceFromInstance {
        instance: instance(4),
        row: 0,
        advice: advice(0),
        offset: 0,
    }];
    assert_eq!(layouter.assign_region("r", &ops), Err(Error::BoundsFailure));
    assert_eq!(layouter.cs().log().len(), 2);
}

#[test]
fn a_refused_constant_leaves_the_rows_written_so_far_taken() {
    // Rows 0 and 1 exist: the second constant cannot be written.
    let mut layouter = layouter(2, vec![fixed(1)]);
    let cell = Cell { region_index: RegionIndex(0), row_offset: 0, column: any_advice(0) };
    let ops = vec![
        RegionOp::AssignAdvice { column: advice(0), offset: 0, to: None },
        RegionOp::ConstrainConstant { cell, constant: Fp::new(1) },
        RegionOp::ConstrainConstant { cell, constant: Fp::new(2) },
        RegionOp::ConstrainConstant { cell, constant: Fp::new(3) },
    ];
    let r = layouter.assign_region("r", &ops);
    assert_eq!(r, Err(Error::NotEnoughRowsAvailable { current_k: 5 }));
    // Enter, one cell, exit, two constants with their copies, and the refusal.
    assert_eq!(layouter.cs().log().len(), 3 + 4 + 1);
    assert_eq!(layouter.first_free_row(&RegionColumn::Column(any_fixed(1))), 2);
}

fn table_column(index: usize) -> TableColumn {
    TableColumn { inner: fixed(index) }
}

fn table_cell(column: usize, offset: usize, value: u64) -> TableCell<Fp> {
    TableCell { column: table_column(column), offset, to: Some(Fp::new(value)) }
}

#[test]
fn table_with_uneven_columns_is_refused() {
    let mut layouter = layouter(16, vec![]);
    let cells = vec![
        table_cell(0, 0, 0),
        table_cell(0, 1, 1),
        table_cell(0, 2, 2),
        table_cell(1, 0, 7),
        table_cell(1, 1, 8),
    ];
    let r = layouter.assign_table("uneven", &cells);
    assert_eq!(
        r,
        Err(Error::TableError(TableError::UnevenColumnLengths(
            (table_column(0), 3),
            (table_column(1), 2)
        )))
    );
    // The cells were assigned and the region was left, and nothing was filled.
    assert_eq!(layouter.cs().log().len(), 1 + 5 + 1);
}

#[test]
fn uneven_columns_are_reported_lower_index_first() {
    let mut layouter = layouter(16, vec![]);
    let cells = vec![table_cell(4, 0, 0), table_cell(2, 0, 7), table_cell(2, 1, 8)];
    assert_eq!(
        layouter.assign_table("uneven", &cells),
        Err(Error::TableError(TableError::UnevenColumnLengths(
            (table_column(2), 2),
            (table_column(4), 1)
        )))
    );
}

#[test]
fn complete_table_is_filled_with_defaults() {
    let mut layouter = layouter(16, vec![]);
    let cells = vec![
        table_cell(1, 0, 7),
        table_cell(0, 0, 0),
        table_cell(0, 2, 2),
        table_cell(1, 1, 8),
        table_cell(0, 1, 1),
        table_cell(1, 2, 9),
        table_cell(1, 2, 10),
    ];
    assert_eq!(layouter.assign_table("table", &cells), Ok(()));
    let log = layouter.cs().log();
    assert_eq!(log.len(), 1 + 7 + 1 + 2);
    assert_eq!(log[0], done(Call::EnterRegion));
    for (i, cell) in cells.iter().enumerate() {
        assert_eq!(
            log[i + 1],
            done(Call::AssignFixed {
                column: cell.column.inner,
                row: cell.offset,
                value: cell.to
            })
        );
    }
    assert_eq!(log[8], done(Call::ExitRegion));
    // Each column, in the order of first use, from the first unused row,
    // with the value of its row 0.
    assert_eq!(
        log[9],
        done(Call::FillFromRow { column: fixed(1), row: 3, value: Some(Fp::new(7)) })
    );
    assert_eq!(
        log[10],
        done(Call::FillFromRow { column: fixed(0), row: 3, value: Some(Fp::new(0)) })
    );
    // All regions are left alone.
    assert!(starts(&layouter).is_empty());
}

#[test]
fn table_columns_are_taken_for_good() {
    let mut layouter = layouter(16, vec![]);
    assert_eq!(layouter.assign_table("one", &vec![table_cell(3, 0, 1)]), Ok(()));
    let before = layouter.cs().log().len();
    let cells = vec![table_cell(4, 0, 1), table_cell(3, 0, 1), table_cell(5, 0, 1)];
    assert_eq!(
        layouter.assign_table("two", &cells),
        Err(Error::TableError(TableError::UsedColumn(table_column(3))))
    );
    // The region was entered and the first cell assigned when the column was found taken.
    assert_eq!(layouter.cs().log().len(), before + 2);
    // The table that failed took no column.
    assert_eq!(layouter.assign_table("three", &vec![table_cell(4, 0, 1)]), Ok(()));
}

#[test]
fn second_default_is_refused_after_its_assignment() {
    let mut layouter = layouter(16, vec![]);
    let cells = vec![table_cell(0, 0, 1), table_cell(0, 1, 2), table_cell(0, 0, 3)];
    assert_eq!(
        layouter.assign_table("twice", &cells),
        Err(Error::TableError(TableError::OverwriteDefault(table_column(0))))
    );
    assert_eq!(layouter.cs().log().len(), 1 + 3);
}

#[test]
fn table_with_a_gap_is_refused() {
    let mut layouter = layouter(16, vec![]);
    let cells = vec![table_cell(0, 0, 1), table_cell(0, 2, 2)];
    assert_eq!(
        layouter.assign_table("gap", &cells),
        Err(Error::TableError(TableError::ColumnNotAssigned(table_column(0))))
    );
    // A column without a default is not assigned either.
    let cells = vec![table_cell(1, 0, 1), table_cell(2, 1, 2)];
    assert_eq!(
        layouter.assign_table("no default", &cells),
        Err(Error::TableError(TableError::ColumnNotAssigned(table_column(2))))
    );
    // An incomplete column is reported before uneven lengths are.
    let cells = vec![table_cell(5, 0, 1), table_cell(6, 0, 1), table_cell(6, 2, 1)];
    assert_eq!(
        layouter.assign_table("both", &cells),
        Err(Error::TableError(TableError::ColumnNotAssigned(table_column(6))))
    );
}

#[test]
fn empty_table_is_accepted() {
    let mut layouter = layouter(16, vec![]);
    assert_eq!(layouter.assign_table("empty", &Vec::new()), Ok(()));
    assert_eq!(layouter.cs().log(), &vec![done(Call::EnterRegion), done(Call::ExitRegion)]);
}

#[test]
fn refusal_while_filling_a_table_is_handed_on() {
    let mut layouter = layouter(1, vec![]);
    let cells = vec![table_cell(0, 0, 1), table_cell(1, 0, 2)];
    let refusal = Error::NotEnoughRowsAvailable { current_k: 5 };
    assert_eq!(layouter.assign_table("t", &cells), Err(refusal));
    let log = layouter.cs().log();
    assert_eq!(
        log[log.len() - 1],
        Exchange {
            call: Call::FillFromRow { column: fixed(0), row: 1, value: Some(Fp::new(1)) },
            reply: Reply::Failed(refusal),
        }
    );
    // The columns were taken before the filling began.
    assert_eq!(
        layouter.assign_table("again", &vec![table_cell(1, 0, 2)]),
        Err(Error::TableError(TableError::UsedColumn(table_column(1))))
    );
}

#[test]
fn instance_constraint_names_the_absolute_row() {
    let mut layouter = layouter(16, vec![]);
    layouter.assign_region("a", &advice_rows(0, 3)).unwrap();
    let cells = layouter.assign_region("b", &advice_rows(0, 2)).unwrap();
    assert_eq!(layouter.constrain_instance(cells[1], instance(0), 6), Ok(()));
    let log = layouter.cs().log();
    assert_eq!(
        log[log.len() - 1],
        done(Call::Copy {
            left_column: any_advice(0),
            left_row: 4,
            right_column: any_instance(0),
            right_row: 6,
        })
    );
    assert_eq!(
        layouter.constrain_instance(cells[1], instance(0), 16),
        Err(Error::NotEnoughRowsAvailable { current_k: 5 })
    );
}

#[test]
fn namespaces_and_challenges_pass_through() {
    let mut layouter = layouter(16, vec![]);
    layouter.push_namespace("gadget");
    layouter.pop_namespace(Some(String::from("gadget")));
    assert_eq!(layouter.cs().log(), &vec![done(Call::PushNamespace), done(Call::PopNamespace)]);
    assert!(starts(&layouter).is_empty());
    assert_eq!(layouter.get_challenge(Challenge { index: 0, phase: 0 }), None);
    assert_eq!(layouter.cs().get_challenge(Challenge { index: 1, phase: 0 }), None);
    let cs = layouter.into_cs();
    assert_eq!(cs.log().len(), 2);
}

struct TwoRegions;

impl Circuit<Fp> for TwoRegions {
    type Config = usize;

    fn synthesize<CS: Assignment<Fp>>(
        &self,
        config: usize,
        layouter: &mut SingleChipLayouter<Fp, CS>,
    ) -> Result<(), Error> {
        layouter.assign_region("a", &advice_rows(config, 3))?;
        layouter.assign_region("b", &advice_rows(config, 2))?;
        Ok(())
    }
}

#[test]
fn floor_planner_hands_the_constraint_system_back() {
    let cs: Recorder<Fp> = Recorder::new(4, 16, vec![]);
    let (result, cs) = SimpleFloorPlanner::synthesize(cs, &TwoRegions, 1, vec![]);
    assert_eq!(result, Ok(()));
    // Two regions: each is entered and left, and assigns one cell for each row.
    assert_eq!(cs.log().len(), 2 + 3 + 2 + 2);
    assert_eq!(
        cs.log()[6],
        done(Call::AssignAdvice { column: advice(1), row: 3, value: Some(Fp::new(1)) })
    );
    let cs: Recorder<Fp> = Recorder::new(4, 4, vec![]);
    let (result, _) = SimpleFloorPlanner::synthesize(cs, &TwoRegions, 1, vec![]);
    assert_eq!(result, Err(Error::NotEnoughRowsAvailable { current_k: 4 }));
}

#[test]
fn region_capability_turns_offsets_into_rows() {
    let mut layouter = layouter(16, vec![]);
    layouter.assign_region("a", &advice_rows(0, 3)).unwrap();
    layouter.assign_region("b", &advice_rows(0, 2)).unwrap();
    let before = layouter.cs().log().len();
    let mut region: SingleChipLayouterRegion<Fp> = SingleChipLayouterRegion::new(RegionIndex(1));
    assert_eq!(region.instance_value(&mut layouter, instance(0), 0), Ok(Some(Fp::new(11))));
    assert_eq!(region.instance_value(&mut layouter, instance(0), 5), Ok(None));
    assert_eq!(
        region.assign_fixed(&mut layouter, fixed(1), 4, Some(Fp::new(2))),
        Ok(Cell { region_index: RegionIndex(1), row_offset: 4, column: any_fixed(1) })
    );
    assert_eq!(region.enable_selector(&mut layouter, Selector(3), 1), Ok(()));
    let left = Cell { region_index: RegionIndex(0), row_offset: 2, column: any_advice(0) };
    let right = Cell { region_index: RegionIndex(1), row_offset: 1, column: any_advice(0) };
    assert_eq!(region.constrain_equal(&mut layouter, left, right), Ok(()));
    assert_eq!(
        region.assign_advice_from_instance(&mut layouter, instance(0), 1, advice(2), 20),
        Err(Error::NotEnoughRowsAvailable { current_k: 5 })
    );
    let log = &layouter.cs().log()[before..];
    assert_eq!(
        log,
        &[
            Exchange {
                call: Call::QueryInstance { column: instance(0), row: 0 },
                reply: Reply::Value(Some(Fp::new(11))),
            },
            Exchange {
                call: Call::QueryInstance { column: instance(0), row: 5 },
                reply: Reply::Value(None),
            },
            done(Call::AssignFixed { column: fixed(1), row: 7, value: Some(Fp::new(2)) }),
            done(Call::EnableSelector { selector: Selector(3), row: 4 }),
            done(Call::Copy {
                left_column: any_advice(0),
                left_row: 2,
                right_column: any_advice(0),
                right_row: 4,
            }),
            Exchange {
                call: Call::QueryInstance { column: instance(0), row: 1 },
                reply: Reply::Value(Some(Fp::new(12))),
            },
            Exchange {
                call: Call::AssignAdvice { column: advice(2), row: 23, value: Some(Fp::new(12)) },
                reply: Reply::Failed(Error::NotEnoughRowsAvailable { current_k: 5 }),
            },
        ]
    );
    // The capability lays nothing out.
    assert_eq!(starts(&layouter), vec![0, 3]);
}

#[test]
fn stacked_regions_are_laid_out_one_below_the_other() {
    let cs: Recorder<Fp> = Recorder::new(4, 16, vec![]);
    let circuit = StackedRegions { heights: vec![3, 0, 2] };
    let (result, cs) = SimpleFloorPlanner::synthesize(cs, &circuit, advice(0), vec![]);
    assert_eq!(result, Ok(()));
    let cell = |row| done(Call::AssignAdvice { column: advice(0), row, value: None });
    assert_eq!(
        cs.log(),
        &vec![
            done(Call::EnterRegion),
            cell(0),
            cell(1),
            cell(2),
            done(Call::ExitRegion),
            done(Call::EnterRegion),
            done(Call::ExitRegion),
            done(Call::EnterRegion),
            cell(3),
            cell(4),
            done(Call::ExitRegion),
        ]
    );
}

#[test]
fn stacked_regions_stop_where_rows_run_out() {
    let cs: Recorder<Fp> = Recorder::new(4, 16, vec![]);
    let circuit = StackedRegions { heights: vec![1, usize::MAX] };
    let (result, cs) = SimpleFloorPlanner::synthesize(cs, &circuit, advice(0), vec![]);
    assert_eq!(result, Err(Error::Synthesis));
    assert_eq!(cs.log().len(), 3);
    let steps: Vec<RegionOp<Fp>> = column_steps(advice(2), 2);
    assert_eq!(
        steps,
        vec![
            RegionOp::AssignAdvice { column: advice(2), offset: 0, to: None },
            RegionOp::AssignAdvice { column: advice(2), offset: 1, to: None },
        ]
    );
}
