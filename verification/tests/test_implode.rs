use moonblade::implode::{ImplodeArgs, ImplodeError};

fn row(fields: &[&str]) -> Vec<String> {
    fields.iter().map(|f| f.to_string()).collect()
}

fn run(args: &[&str], data: Vec<Vec<String>>) -> Vec<Vec<String>> {
    let args = ImplodeArgs::parse(args).unwrap();
    assert_eq!(args.input, Some(b"data.csv".to_vec()));
    let table: Vec<Vec<Vec<u8>>> = data
        .into_iter()
        .map(|r| r.into_iter().map(|f| f.into_bytes()).collect())
        .collect();
    moonblade::implode::implode(&args, &table)
        .unwrap()
        .into_iter()
        .map(|r| r.into_iter().map(|f| String::from_utf8(f).unwrap()).collect())
        .collect()
}

#[test]
fn implode() {
    let data = vec![
        row(&["name", "colors"]),
        row(&["Mary", "yellow"]),
        row(&["John", "blue"]),
        row(&["John", "orange"]),
        row(&["Jack", ""]),
    ];
    let got: Vec<Vec<String>> = run(&["colors", "data.csv"], data);
    let expected = vec![
        row(&["name", "colors"]),
        row(&["Mary", "yellow"]),
        row(&["John", "blue|orange"]),
        row(&["Jack", ""]),
    ];
    assert_eq!(got, expected);
}

#[test]
fn implode_custom_sep() {
    let data = vec![
        row(&["name", "colors"]),
        row(&["Mary", "yellow"]),
        row(&["John", "blue"]),
        row(&["John", "orange"]),
        row(&["Jack", ""]),
    ];
    let got: Vec<Vec<String>> = run(&["colors", "--sep", "%", "data.csv"], data);
    let expected = vec![
        row(&["name", "colors"]),
        row(&["Mary", "yellow"]),
        row(&["John", "blue%orange"]),
        row(&["Jack", ""]),
    ];
    assert_eq!(got, expected);
}

#[test]
fn implode_rename() {
    let data = vec![
        row(&["name", "color"]),
        row(&["Mary", "yellow"]),
        row(&["John", "blue"]),
        row(&["John", "orange"]),
        row(&["Jack", ""]),
    ];
    let got: Vec<Vec<String>> = run(&["color", "--rename", "colors", "data.csv"], data);
    let expected = vec![
        row(&["name", "colors"]),
        row(&["Mary", "yellow"]),
        row(&["John", "blue|orange"]),
        row(&["Jack", ""]),
    ];
    assert_eq!(got, expected);
}

#[test]
fn implode_plural() {
    let data = vec![
        row(&["name", "color"]),
        row(&["Mary", "yellow"]),
        row(&["John", "blue"]),
        row(&["John", "orange"]),
        row(&["Jack", ""]),
    ];
    let got: Vec<Vec<String>> = run(&["color", "--plural", "data.csv"], data);
    let expected = vec![
        row(&["name", "colors"]),
        row(&["Mary", "yellow"]),
        row(&["John", "blue|orange"]),
        row(&["Jack", ""]),
    ];
    assert_eq!(got, expected);
}

#[test]
fn implode_no_headers() {
    let data = vec![
        row(&["Mary", "yellow"]),
        row(&["John", "blue"]),
        row(&["John", "orange"]),
        row(&["Jack", ""]),
    ];
    let got: Vec<Vec<String>> = run(&["1", "--no-headers", "data.csv"], data);
    let expected = vec![
        row(&["Mary", "yellow"]),
        row(&["John", "blue|orange"]),
        row(&["Jack", ""]),
    ];
    assert_eq!(got, expected);
}

#[test]
fn implode_multiple_columns() {
    let data = vec![
        row(&["name", "color", "letter"]),
        row(&["Mary", "yellow", "a"]),
        row(&["John", "blue", "b"]),
        row(&["John", "orange", "c"]),
        row(&["Jack", "", "d"]),
    ];
    let got: Vec<Vec<String>> = run(&["color,letter", "data.csv"], data);
    let expected = vec![
        row(&["name", "color", "letter"]),
        row(&["Mary", "yellow", "a"]),
        row(&["John", "blue|orange", "b|c"]),
        row(&["Jack", "", "d"]),
    ];
    assert_eq!(got, expected);
}

#[test]
fn implode_multiple_columns_rename() {
    let data = vec![
        row(&["name", "color", "letter"]),
        row(&["Mary", "yellow", "a"]),
        row(&["John", "blue", "b"]),
        row(&["John", "orange", "c"]),
        row(&["Jack", "", "d"]),
    ];
    let got: Vec<Vec<String>> = run(&["color,letter", "-r", "colors,letters", "data.csv"], data);
    let expected = vec![
        row(&["name", "colors", "letters"]),
        row(&["Mary", "yellow", "a"]),
        row(&["John", "blue|orange", "b|c"]),
        row(&["Jack", "", "d"]),
    ];
    assert_eq!(got, expected);
}

#[test]
fn implode_rejects_what_it_cannot_do() {
    assert_eq!(ImplodeArgs::parse(&[]), Err(ImplodeError::MissingColumns));
    assert_eq!(ImplodeArgs::parse(&["--plural"]), Err(ImplodeError::MissingColumns));
    assert_eq!(
        ImplodeArgs::parse(&["a", "--sep"]),
        Err(ImplodeError::MissingValue(b"--sep".to_vec()))
    );
    assert_eq!(
        ImplodeArgs::parse(&["a", "--loud"]),
        Err(ImplodeError::UnknownOption(b"--loud".to_vec()))
    );
    assert_eq!(
        ImplodeArgs::parse(&["a", "b", "c"]),
        Err(ImplodeError::TooManyArguments)
    );
    let table = vec![vec![b"name".to_vec(), b"color".to_vec()]];
    let args = ImplodeArgs::parse(&["shade"]).unwrap();
    assert_eq!(
        moonblade::implode::implode(&args, &table),
        Err(ImplodeError::UnknownColumn(b"shade".to_vec()))
    );
    let args = ImplodeArgs::parse(&["color", "-r", "a,b"]).unwrap();
    assert_eq!(
        moonblade::implode::implode(&args, &table),
        Err(ImplodeError::RenameMismatch { expected: 1, got: 2 })
    );
}
