use primeclue::error::PrimeclueErr;
use primeclue::importer::{
    build_class_map, build_data_set, build_data_set_upto, class_producer, get_header_row, import_panic_row,
    number_row_cells, remove_column, split_to_vec, ClassProducer, ClassRequest, ClassResponse,
    RewardPenalty,
};
use primeclue::outcome::Class;

fn table(rows: &[&[&str]]) -> Vec<Vec<String>> {
    rows.iter().map(|r| r.iter().map(|c| c.to_string()).collect()).collect()
}

fn strings(v: &[&str]) -> Vec<String> {
    v.iter().map(|s| s.to_string()).collect()
}

fn request(content: &str, class_column: usize, rows_per_set: usize, import_columns: Vec<bool>) -> ClassRequest {
    ClassRequest {
        content: content.to_string(),
        class_column,
        separator: ",".to_string(),
        ignore_first_row: false,
        rows_per_set,
        import_columns,
        data_name: "d".to_string(),
        custom_reward_penalty_columns: false,
        reward_column: 0,
        penalty_column: 0,
    }
}

const SIMPLE: &str = "1.0,3.0,false\r\n2.0,1.0,true\r\n";

#[test]
fn split_to_vec_splits_lines_and_cells() {
    let rows = split_to_vec(SIMPLE, ",", false);
    assert_eq!(rows, table(&[&["1.0", "3.0", "false"], &["2.0", "1.0", "true"]]));
}

#[test]
fn split_to_vec_skips_blank_lines_and_the_header() {
    let content = "a;b\n\n  \n1; 2 \r\n\n3;4";
    assert_eq!(split_to_vec(content, ";", true), table(&[&["1", " 2"], &["3", "4"]]));
    assert_eq!(split_to_vec(content, ";", false), table(&[&["a", "b"], &["1", " 2"], &["3", "4"]]));
}

#[test]
fn split_to_vec_of_nothing_is_empty() {
    assert!(split_to_vec("", ",", false).is_empty());
    assert!(split_to_vec("\n \r\n", ",", false).is_empty());
    assert!(split_to_vec("header only", ",", true).is_empty());
}

#[test]
fn header_row_from_the_first_line() {
    let content = " x,y,class \n1,2,a";
    assert_eq!(get_header_row(content, ",", true, strings(&["n1"])), strings(&["x", "y", "class", "n1"]));
}

#[test]
fn header_row_without_a_header_is_empty_names() {
    let content = "1,2,a\n3,4,b";
    assert_eq!(get_header_row(content, ",", false, strings(&["n1", "n2"])), strings(&["", "", "", "n1", "n2"]));
}

#[test]
fn header_row_of_empty_content() {
    assert_eq!(get_header_row("", ",", true, vec![]), strings(&[""]));
    assert_eq!(get_header_row("", ",", false, strings(&["z"])), strings(&["", "z"]));
}

#[test]
fn remove_column_takes_one_cell_from_every_row() {
    let mut rows = table(&[&["a", "b", "c"], &["d", "e", "f"]]);
    let removed = remove_column(&mut rows, 1).unwrap();
    assert_eq!(removed, strings(&["b", "e"]));
    assert_eq!(rows, table(&[&["a", "c"], &["d", "f"]]));
}

#[test]
fn remove_column_then_insert_restores_the_rows() {
    let original = table(&[&["1", "2"], &["3", "4"], &["5", "6"]]);
    let mut rows = original.clone();
    let removed = remove_column(&mut rows, 0).unwrap();
    for (row, v) in rows.iter_mut().zip(removed) {
        row.insert(0, v);
    }
    assert_eq!(rows, original);
}

#[test]
fn remove_column_stops_at_a_short_row() {
    let mut rows = table(&[&["a", "b", "c"], &["d"], &["e", "f", "g"]]);
    let r = remove_column(&mut rows, 2);
    assert_eq!(r, Err(PrimeclueErr::RemoveColumn { column: 2, present: 1 }));
    assert_eq!(rows, table(&[&["a", "b"], &["d"], &["e", "f", "g"]]));
}

#[test]
fn class_map_numbers_classes_in_order_of_appearance() {
    let rows = table(&[&["1", "b"], &["2", "a"], &["3", ""], &["4", "b"], &["5", "c"]]);
    let map = build_class_map(&rows, 1).unwrap();
    assert_eq!(map.len(), 3);
    assert_eq!(map.all_classes(), strings(&["b", "a", "c"]));
    assert_eq!(map.get(&"a".to_string()), Some(Class::new(1)));
    assert_eq!(map.get(&"c".to_string()), Some(Class::new(2)));
    assert_eq!(map.get(&"".to_string()), None);
    assert_eq!(map.get(&"d".to_string()), None);
}

#[test]
fn class_map_needs_the_column_in_every_row() {
    let rows = table(&[&["1", "b"], &["2"], &["3"]]);
    match build_class_map(&rows, 1) {
        Err(e) => assert_eq!(e, PrimeclueErr::NoColumn { column: 1, row: 1 }),
        Ok(_) => panic!("expected an error"),
    }
}

#[test]
fn class_producer_reads_the_class_column() {
    let rows = table(&[&["x", "1"], &["y", "0"], &["z", "1"]]);
    let r = request("", 2, 1, vec![true]);
    let p = class_producer(&r, &rows).unwrap();
    assert_eq!(p.class(&rows, 0), Ok(Some(Class::new(0))));
    assert_eq!(p.class(&rows, 1), Ok(Some(Class::new(1))));
    assert_eq!(p.class(&rows, 2), Ok(Some(Class::new(0))));
    assert_eq!(p.all_classes(), strings(&["1", "0"]));
    let bad = request("", 3, 1, vec![true]);
    assert!(matches!(class_producer(&bad, &rows), Err(PrimeclueErr::NoColumn { column: 2, row: 0 })));
}

#[test]
fn class_producer_created_from_a_map() {
    let rows = table(&[&["a"], &["b"]]);
    let map = build_class_map(&rows, 0).unwrap();
    let p = ClassProducer::create(0, map);
    assert_eq!(p.class(&rows, 1), Ok(Some(Class::new(1))));
}

#[test]
fn number_cells_follow_the_import_flags() {
    let row = strings(&["1", "x", "3", "4"]);
    assert_eq!(number_row_cells(&vec![true, false, true, false], &row), strings(&["1", "3"]));
    assert_eq!(number_row_cells(&vec![true, true], &row), strings(&["1", "x"]));
    assert_eq!(number_row_cells(&vec![true, true, true, true, true, true], &strings(&["7"])), strings(&["7"]));
}

#[test]
fn simple_csv_request_from_the_documentation() {
    let r = ClassRequest::simple_csv_request("name", SIMPLE.to_string(), false);
    assert_eq!(r.content, SIMPLE);
    assert_eq!(r.class_column, 3);
    assert_eq!(r.separator, ",");
    assert!(!r.ignore_first_row);
    assert_eq!(r.rows_per_set, 1);
    assert_eq!(r.import_columns, vec![true, true, false]);
    assert_eq!(r.data_name, "name");
    assert!(!r.custom_reward_penalty_columns);
    assert_eq!(r.reward_column, 0);
    assert_eq!(r.penalty_column, 0);
}

#[test]
fn simple_csv_request_with_a_header() {
    let r = ClassRequest::simple_csv_request("h", "a,b\n1,x\n".to_string(), true);
    assert_eq!(r.class_column, 2);
    assert_eq!(r.import_columns, vec![true, false]);
    assert!(r.ignore_first_row);
}

#[test]
fn data_set_of_the_simple_request() {
    let r = ClassRequest::simple_csv_request("name", SIMPLE.to_string(), false);
    assert_eq!(import_panic_row(&r), None);
    let d = build_data_set(&r).ok().unwrap();
    assert_eq!(d.classes, strings(&["false", "true"]));
    assert_eq!(d.rows, table(&[&["1.0", "3.0"], &["2.0", "1.0"]]));
    assert_eq!(d.points.len(), 2);
    assert_eq!((d.points[0].first_row, d.points[0].last_row), (0, 0));
    assert_eq!((d.points[1].first_row, d.points[1].last_row), (1, 1));
    assert_eq!(d.points[0].class, Class::new(0));
    assert_eq!(d.points[1].class, Class::new(1));
    assert!(matches!(d.points[0].reward_penalty, RewardPenalty::Default));
}

#[test]
fn points_cover_rows_per_set_rows() {
    let r = request("1,a\n2,b\n3,a\n4,c\n5,b\n", 2, 3, vec![true, false]);
    let d = build_data_set(&r).ok().unwrap();
    assert_eq!(d.rows.len(), 5);
    let spans: Vec<(usize, usize)> = d.points.iter().map(|p| (p.first_row, p.last_row)).collect();
    assert_eq!(spans, vec![(0, 2), (1, 3), (2, 4)]);
    let classes: Vec<u16> = d.points.iter().map(|p| p.class.id).collect();
    assert_eq!(classes, vec![0, 2, 1]);
}

#[test]
fn no_point_with_fewer_rows_than_a_set() {
    let r = request("1,a\n2,b\n", 2, 3, vec![true, false]);
    let d = build_data_set(&r).ok().unwrap();
    assert_eq!(d.rows.len(), 2);
    assert!(d.points.is_empty());
}

#[test]
fn rows_per_set_zero_makes_a_point_of_every_row() {
    let r = request("1,a\n2,b\n", 2, 0, vec![true, false]);
    let d = build_data_set(&r).ok().unwrap();
    let spans: Vec<(usize, usize)> = d.points.iter().map(|p| (p.first_row, p.last_row)).collect();
    assert_eq!(spans, vec![(1, 0), (2, 1)]);
}

#[test]
fn reward_and_penalty_from_columns() {
    let mut r = request("1, 5 ,-2,a\n2,6,-3,b\n", 4, 1, vec![true]);
    r.custom_reward_penalty_columns = true;
    r.reward_column = 2;
    r.penalty_column = 3;
    let d = build_data_set(&r).ok().unwrap();
    match &d.points[0].reward_penalty {
        RewardPenalty::Columns { reward, penalty } => {
            assert_eq!(reward, " 5 ");
            assert_eq!(penalty, "-2");
        }
        RewardPenalty::Default => panic!("expected columns"),
    }
}

#[test]
fn missing_penalty_column_stops_the_import() {
    let mut r = request("1,5,-2,a\n2,6,b\n3,7,-1,a\n", 3, 1, vec![true]);
    r.custom_reward_penalty_columns = true;
    r.reward_column = 2;
    r.penalty_column = 4;
    let f = match build_data_set(&r) {
        Err(f) => f,
        Ok(_) => panic!("expected a failure"),
    };
    assert_eq!(f.error, PrimeclueErr::MissingColumn { column: 4 });
    assert_eq!(f.reward, Some("6".to_string()));
    assert_eq!(f.read.rows.len(), 2);
    assert_eq!(f.read.points.len(), 1);
}

#[test]
fn missing_reward_column_stops_the_import() {
    let mut r = request("1,5,-2,a\n2,b\n", 2, 1, vec![true]);
    r.custom_reward_penalty_columns = true;
    r.reward_column = 3;
    r.penalty_column = 2;
    let f = match build_data_set(&r) {
        Err(f) => f,
        Ok(_) => panic!("expected a failure"),
    };
    assert_eq!(f.error, PrimeclueErr::MissingColumn { column: 3 });
    assert_eq!(f.reward, None);
    assert_eq!(f.read.rows.len(), 2);
    assert_eq!(f.read.points.len(), 1);
}

#[test]
fn missing_class_column_fails_before_any_row() {
    let r = request("1,a\n2\n", 2, 1, vec![true]);
    let f = match build_data_set(&r) {
        Err(f) => f,
        Ok(_) => panic!("expected a failure"),
    };
    assert_eq!(f.error, PrimeclueErr::NoColumn { column: 1, row: 1 });
    assert!(f.read.rows.is_empty());
    assert!(f.read.classes.is_empty());
}

#[test]
fn import_panics_on_an_empty_class_cell_or_column_zero() {
    assert_eq!(import_panic_row(&request("1,a\n2,\n", 2, 1, vec![true])), Some(1));
    assert_eq!(import_panic_row(&request("1,a\n2,\n", 2, 3, vec![true])), None);
    assert_eq!(import_panic_row(&request("1,\n2,b\n", 2, 2, vec![true])), None);
    let mut r = request("1,a\n", 2, 1, vec![true]);
    r.custom_reward_penalty_columns = true;
    assert_eq!(import_panic_row(&r), Some(0));
    r.reward_column = 5;
    assert_eq!(import_panic_row(&r), None);
    r.reward_column = 1;
    assert_eq!(import_panic_row(&r), Some(0));
}

#[test]
fn the_rows_before_a_panic_import() {
    let r = request("1,a\n2,b\n3,\n4,c\n", 2, 1, vec![true]);
    assert_eq!(import_panic_row(&r), Some(2));
    let d = build_data_set_upto(&r, 2).ok().unwrap();
    assert_eq!(d.rows, table(&[&["1"], &["2"]]));
    assert_eq!(d.points.len(), 2);
    assert_eq!(d.classes, strings(&["a", "b", "c"]));
}

#[test]
fn class_response_holds_the_classes() {
    let r = ClassResponse::new(strings(&["a", "b"]));
    assert_eq!(r.classes(), &strings(&["a", "b"]));
}
