use ict_query::panel::{board_result_of, BoardResult, Panel, Timestamp};
use ict_query::serial::CodecError;

const T0: Timestamp = Timestamp { seconds: 1_704_067_200 };
const T1: Timestamp = Timestamp { seconds: 1_704_153_600 };

fn s(x: &str) -> String {
    x.to_string()
}

#[test]
fn primary_row_fixes_serials_and_position() {
    let mut p = Panel::new(3, s("Board"));
    assert!(p.is_empty());
    let r = p.push(1, s("ABCDEF0001234GHI"), s("ST1"), s("Passed"), T1, s("C:\\logs\\2-240102-a.log"));
    assert_eq!(r, Ok(()));
    assert!(!p.is_empty());
    assert_eq!(p.serials.len(), 3);
    assert_eq!(p.serials[1], "ABCDEF0001234GHI");
    assert_eq!(p.selected_pos, 1);
    assert_eq!(p.results.len(), 1);
    let a = &p.results[0];
    assert_eq!(a.results, vec![BoardResult::Unknown, BoardResult::Passed, BoardResult::Unknown]);
    assert_eq!(a.logs, vec![s(""), s("C:\\logs\\2-240102-a.log"), s("")]);
    assert_eq!(a.station, "ST1");
    assert_eq!(a.time, T1);
}

#[test]
fn primary_rows_keep_arrival_order_and_sibling_fills_first() {
    let mut p = Panel::new(3, s("Board"));
    p.push(1, s("ABCDEF0001234GHI"), s("ST1"), s("Passed"), T1, s("2-b.log")).unwrap();
    p.push(1, s("ABCDEF0001234GHI"), s("ST1"), s("Error"), T0, s("2-a.log")).unwrap();
    assert_eq!(p.results[0].time, T1);
    assert_eq!(p.results[1].time, T0);
    assert_eq!(p.results[1].results[1], BoardResult::Failed);
    p.add_result(0, s("Passed"), s("1-b.log"));
    assert_eq!(p.results[0].results[0], BoardResult::Passed);
    assert_eq!(p.results[0].logs[0], "1-b.log");
    assert_eq!(p.results[1].results[0], BoardResult::Unknown);
    p.add_result(0, s("Failed"), s("1-a.log"));
    assert_eq!(p.results[1].results[0], BoardResult::Failed);
    assert_eq!(p.results[1].logs[0], "1-a.log");
}

#[test]
fn surplus_sibling_rows_are_dropped() {
    let mut p = Panel::new(2, s("Board"));
    p.push(0, s("ABCDEF0001234GHI"), s("ST1"), s("Passed"), T1, s("1-b.log")).unwrap();
    p.add_result(1, s("Passed"), s("2-c.log"));
    p.add_result(1, s("Failed"), s("2-b.log"));
    p.add_result(1, s("Failed"), s("2-a.log"));
    assert_eq!(p.results.len(), 1);
    assert_eq!(p.results[0].results, vec![BoardResult::Passed, BoardResult::Passed]);
    assert_eq!(p.results[0].logs[1], "2-c.log");
}

#[test]
fn later_serials_do_not_replace_the_first() {
    let mut p = Panel::new(2, s("Board"));
    p.push(0, s("ABCDEF0001234GHI"), s("ST1"), s("Passed"), T1, s("1-b.log")).unwrap();
    p.push(1, s("ABCDEF0009999GHI"), s("ST2"), s("Passed"), T0, s("2-a.log")).unwrap();
    assert_eq!(p.serials, vec![s("ABCDEF0001234GHI"), s("ABCDEF0001235GHI")]);
    assert_eq!(p.selected_pos, 0);
    assert_eq!(p.results[1].results, vec![BoardResult::Unknown, BoardResult::Passed]);
}

#[test]
fn malformed_first_serial_leaves_panel_empty() {
    let mut p = Panel::new(2, s("Board"));
    let r = p.push(0, s("SHORT"), s("ST1"), s("Passed"), T1, s("1-b.log"));
    assert_eq!(r, Err(CodecError::MalformedSerial));
    assert!(p.is_empty());
    assert_eq!(p.results.len(), 0);
}

#[test]
fn result_text_other_than_passed_is_failure() {
    assert_eq!(board_result_of(&s("Passed")), BoardResult::Passed);
    assert_eq!(board_result_of(&s("passed")), BoardResult::Failed);
    assert_eq!(board_result_of(&s("")), BoardResult::Failed);
}

#[test]
fn empty_panel_has_nothing() {
    let p = Panel::empty();
    assert!(p.is_empty());
    assert_eq!(p.boards, 0);
    assert_eq!(p.product, "");
}
