use ndwt::vector::{split_vector_fields, vector_from_fields, ParseVectorError, Vector, VectorErrorKind};
use num_traits::Num;

fn fields(text: &str) -> Vec<String> {
    let chars: Vec<char> = text.chars().collect();
    split_vector_fields(&chars).into_iter().map(|f| f.into_iter().collect()).collect()
}

fn parse<T: Num + Copy, const N: usize>(text: &str, radix: u32) -> Result<Vector<T, N>, ParseVectorError<T::FromStrRadixErr>> {
    let parsed = fields(text).iter().map(|f| T::from_str_radix(f, radix)).collect();
    vector_from_fields(parsed)
}

#[test]
fn from_string() {
    let res = parse::<f64, 4>("1,1,1,1", 10);
    assert!(res.is_ok());
    assert_eq!(res.ok().unwrap(), Vector::<f64, 4>::splat(1.0));
    let res = parse::<f64, 4>("[1,1,1,1]", 10);
    assert!(res.is_ok());
    assert_eq!(res.ok().unwrap(), Vector::<f64, 4>::splat(1.0));
}

#[test]
fn fields_are_trimmed_and_split_at_commas() {
    assert_eq!(fields("1,1,1,1"), vec!["1", "1", "1", "1"]);
    assert_eq!(fields(" [1, 2 ,3] "), vec!["1", "2", "3"]);
    assert_eq!(fields("[[1,2]]"), vec!["1", "2"]);
    assert_eq!(fields(""), vec![""]);
    assert_eq!(fields("1,,2"), vec!["1", "", "2"]);
    assert_eq!(fields("\u{3000}4\t,\u{a0}5\n"), vec!["4", "5"]);
    assert_eq!(fields("[ ]"), vec![""]);
}

#[test]
fn parsing_reports_first_error_then_length() {
    let ok: Result<Vector<i64, 3>, ParseVectorError<String>> =
        vector_from_fields(vec![Ok(1), Ok(2), Ok(3)]);
    assert_eq!(ok.ok().unwrap().data, [1, 2, 3]);
    let bad: Result<Vector<i64, 3>, ParseVectorError<String>> =
        vector_from_fields(vec![Ok(1), Err("b".to_string()), Err("c".to_string()), Ok(4)]);
    assert_eq!(bad.err().unwrap().kind, VectorErrorKind::ParseError("b".to_string()));
    let short: Result<Vector<i64, 3>, ParseVectorError<String>> = vector_from_fields(vec![Ok(1), Ok(2)]);
    assert_eq!(short.err().unwrap().kind, VectorErrorKind::InconsistentLength);
    assert_eq!(parse::<i64, 2>("[ff, 10]", 16).ok().unwrap().data, [255, 16]);
    assert!(matches!(parse::<i64, 2>("1,x", 10).err().unwrap().kind, VectorErrorKind::ParseError(_)));
    assert_eq!(parse::<i64, 2>("1,2,3", 10).err().unwrap().kind, VectorErrorKind::InconsistentLength);
}
