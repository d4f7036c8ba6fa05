use task_scheduler::loader::{parse_csv, CsvField, LoadWarning};
use task_scheduler::task::{Task, MAX_TASKS};

fn load(content: &str) -> (usize, Vec<LoadWarning>, Vec<Task>) {
    let mut tasks = [Task::empty(); MAX_TASKS];
    let (n, w) = parse_csv(content, &mut tasks);
    (n, w, tasks[..n].to_vec())
}

fn span(content: &str, needle: &str) -> (usize, usize) {
    let start = content.find(needle).unwrap();
    (start, start + needle.len())
}

#[test]
fn reads_records_after_the_header() {
    let csv = "id,name,priority,arrival,deadline,duration\n1,pick_up_box,4,0,30,5\n2, scan_shelf ,2,3,40,7\n";
    let (n, w, t) = load(csv);
    assert_eq!(n, 2);
    assert!(w.is_empty());
    assert_eq!((t[0].id, t[0].priority, t[0].arrival, t[0].deadline, t[0].duration, t[0].order), (1, 4, 0, 30, 5, 0));
    assert_eq!(t[0].get_name(), "pick_up_box");
    assert_eq!((t[1].id, t[1].priority, t[1].arrival, t[1].deadline, t[1].duration, t[1].order), (2, 2, 3, 40, 7, 1));
    assert_eq!(t[1].get_name(), "scan_shelf");
}

#[test]
fn blank_lines_and_carriage_returns_are_skipped() {
    let csv = "\n   \nheader\r\n\n3,a,1,2,3,4\r\n\n";
    let (n, w, t) = load(csv);
    assert_eq!(n, 1);
    assert!(w.is_empty());
    assert_eq!((t[0].id, t[0].duration), (3, 4));
}

#[test]
fn last_line_needs_no_newline() {
    let (n, _, t) = load("h\n8,x,3,1,2,9");
    assert_eq!(n, 1);
    assert_eq!(t[0].duration, 9);
    assert_eq!(load("").0, 0);
    assert_eq!(load("only a header").0, 0);
}

#[test]
fn bad_rows_are_skipped_with_warnings() {
    let csv = "h\nx,a,1,0,1,1\n5,b,z,0,1,1\n0,c,1,0,1,1\n6,d,5,0,1,1\n7,e,1,-1,1,1\n8,f,1,0,0,1\n9,g,1,0,1,0\n10,ok,1,0,1,1\n11,q,1,0,1, \n";
    let (n, w, t) = load(csv);
    assert_eq!(n, 1);
    assert_eq!(t[0].id, 10);
    assert_eq!(t[0].order, 0);
    let (xs, xe) = span(csv, "x,");
    let (zs, _) = span(csv, "z");
    let blank = csv.len() - 2;
    assert_eq!(
        w,
        vec![
            LoadWarning::BadNumber { field: CsvField::Id, start: xs, end: xe - 1 },
            LoadWarning::BadNumber { field: CsvField::Priority, start: zs, end: zs + 1 },
            LoadWarning::OutOfRange { field: CsvField::Id, value: 0 },
            LoadWarning::OutOfRange { field: CsvField::Priority, value: 5 },
            LoadWarning::OutOfRange { field: CsvField::Arrival, value: -1 },
            LoadWarning::OutOfRange { field: CsvField::Deadline, value: 0 },
            LoadWarning::OutOfRange { field: CsvField::Duration, value: 0 },
            LoadWarning::BadNumber { field: CsvField::Duration, start: blank, end: blank },
        ]
    );
}

#[test]
fn short_rows_are_skipped_silently_and_extra_fields_ignored() {
    let (n, w, t) = load("h\n1,a,2,3\n2,b,2,3,4,5,extra,more\n");
    assert_eq!(n, 1);
    assert!(w.is_empty());
    assert_eq!((t[0].id, t[0].duration), (2, 5));
}

#[test]
fn numbers_read_as_i32_does() {
    let csv = "h\n+5,a,1,0,1,1\n99999999999,b,1,0,1,1\n6,c,1,-2147483648,1,1\n7,d,1 2,0,1,1\n 12 ,e,+4,0,2147483647,1\n-0,f,1,0,1,1\n";
    let (n, w, t) = load(csv);
    assert_eq!(n, 2);
    assert_eq!(t[0].id, 5);
    assert_eq!((t[1].id, t[1].priority, t[1].deadline), (12, 4, i32::MAX));
    let (bs, be) = span(csv, "99999999999");
    let (ps, pe) = span(csv, "1 2");
    assert_eq!(
        w,
        vec![
            LoadWarning::BadNumber { field: CsvField::Id, start: bs, end: be },
            LoadWarning::OutOfRange { field: CsvField::Arrival, value: i32::MIN },
            LoadWarning::BadNumber { field: CsvField::Priority, start: ps, end: pe },
            LoadWarning::OutOfRange { field: CsvField::Id, value: 0 },
        ]
    );
}

#[test]
fn unicode_white_space_is_trimmed() {
    let csv = "\u{3000}h\u{85}\n\u{a0}11\u{2003},名前\u{205f},1,0,5,2\u{3000}\n";
    let (n, w, t) = load(csv);
    assert_eq!(n, 1);
    assert!(w.is_empty());
    assert_eq!(t[0].id, 11);
    assert_eq!(t[0].get_name(), "名前");
    assert_eq!(t[0].duration, 2);
}

#[test]
fn reading_stops_at_max_tasks() {
    let mut csv = String::from("id,name,priority,arrival,deadline,duration\n");
    for i in 1..=MAX_TASKS + 5 {
        csv.push_str(&format!("{},t{},1,{},10,1\n", i, i, i));
    }
    let (n, w, t) = load(&csv);
    assert_eq!(n, MAX_TASKS);
    assert_eq!(w, vec![LoadWarning::TooManyTasks]);
    assert_eq!(t[MAX_TASKS - 1].id, MAX_TASKS as i32);
    assert_eq!(t[MAX_TASKS - 1].get_name(), format!("t{}", MAX_TASKS));
}

#[test]
fn blank_lines_past_the_limit_do_not_warn() {
    let mut csv = String::from("h\n");
    for i in 1..=MAX_TASKS {
        csv.push_str(&format!("{},t,1,0,10,1\n", i));
    }
    csv.push_str("\n   \n");
    let (n, w, _) = load(&csv);
    assert_eq!(n, MAX_TASKS);
    assert!(w.is_empty());
}
