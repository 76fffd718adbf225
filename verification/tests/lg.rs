use bbst::lg::{
    bools, deconstruct_ref_tuple, hmap, hvec, polish, remove_ampersand, vec2, vmap, vvec, Align,
    Cell, Table,
};

const GRAY: &str = "\x1b[48;2;127;127;127;37m";
const RESET: &str = "\x1b[0m";

fn cell(text: &str, align: Align) -> Cell {
    Cell {
        text: text.to_owned(),
        align,
    }
}

fn model(table: &Table) -> Vec<Vec<(String, Align)>> {
    table
        .table
        .iter()
        .map(|row| row.iter().map(|c| (c.text.clone(), c.align)).collect())
        .collect()
}

fn expect_render(table: &Table) -> String {
    let rows = &table.table;
    let w = rows[0].len();
    let widths: Vec<usize> = (0..w)
        .map(|j| rows.iter().map(|row| row[j].text.len().max(1)).max().unwrap())
        .collect();
    let mut out = String::new();
    for (i, row) in rows.iter().enumerate() {
        if i == 0 {
            out.push_str(GRAY);
        }
        for (j, c) in row.iter().enumerate() {
            let width = widths[j];
            let text = &c.text;
            out.push(' ');
            match c.align {
                Align::Left => out.push_str(&format!("{text:<width$}")),
                Align::Center => out.push_str(&format!("{text:^width$}")),
                Align::Right => out.push_str(&format!("{text:>width$}")),
            }
            out.push_str(if j == 0 { " │" } else { " " });
        }
        if i == 0 {
            out.push_str(RESET);
        }
        out.push('\n');
    }
    out
}

fn expect_format(raw: &str) -> String {
    let s = raw
        .replace("340282366920938463463374607431768211455", "*")
        .replace("170141183460469231731687303715884105727", "*")
        .replace("18446744073709551615", "*")
        .replace("9223372036854775807", "*")
        .replace("-9223372036854775808", "*")
        .replace("4294967295", "*")
        .replace("2147483647", "*")
        .replace("-2147483648", "*")
        .replace("None", "*")
        .replace("true", "#")
        .replace("false", ".");
    let mut s = s.as_str();
    while s.starts_with("Some(") {
        s = s.strip_prefix("Some(").unwrap();
        s = s.strip_suffix(')').unwrap();
    }
    while s.len() > 2 && s.starts_with('"') && s.ends_with('"') {
        s = s.strip_prefix('"').unwrap();
        s = s.strip_suffix('"').unwrap();
    }
    s.to_owned()
}

#[test]
fn render_matches_the_standard_formatter() {
    let table = Table {
        table: vec![
            vec![
                cell("", Align::Left),
                cell("title", Align::Center),
                cell("x", Align::Right),
            ],
            vec![
                cell("0", Align::Center),
                cell("12", Align::Right),
                cell("abcdef", Align::Left),
            ],
            vec![
                cell("100", Align::Center),
                cell("a", Align::Center),
                cell("", Align::Center),
            ],
        ],
    };
    assert_eq!(table.render(), expect_render(&table));
    assert_eq!(
        table.render(),
        format!(
            "{GRAY}     │ title       x {RESET}\n  0  │    12  abcdef \n 100 │   a           \n"
        )
    );
}

#[test]
fn render_of_a_single_empty_cell() {
    let table = Table {
        table: vec![vec![cell("", Align::Right)]],
    };
    assert_eq!(table.render(), format!("{GRAY}   │{RESET}\n"));
}

#[test]
fn polish_matches_the_standard_library() {
    for raw in [
        "",
        "12",
        "None",
        "Some(3)",
        "Some(Some(None))",
        "\"text\"",
        "\"\"",
        "\"a\"",
        "\"\"\"",
        "[true, false, None]",
        "18446744073709551615",
        "-9223372036854775808",
        "9223372036854775807",
        "4294967295x2147483647",
        "-2147483648",
        "340282366920938463463374607431768211455",
        "170141183460469231731687303715884105727",
        "Some(\"quoted\")",
        "falsetruefalse",
        "Some()",
        "Some(Some(\"x\"))",
    ] {
        assert_eq!(polish(raw), expect_format(raw), "for {raw:?}");
    }
    assert_eq!(polish("Some(\"quoted\")"), "quoted");
    assert_eq!(polish("[true, false, None]"), "[#, ., *]");
}

#[test]
fn format_tidies_debug_text() {
    assert_eq!(bbst::lg::format(&Some(5)), "5");
    assert_eq!(bbst::lg::format(&None::<u8>), "*");
    assert_eq!(bbst::lg::format(&u64::MAX), "*");
    assert_eq!(bbst::lg::format(&"word"), "word");
    assert_eq!(bbst::lg::format(&vec![true, false]), "[#, .]");
    assert_eq!(bbst::lg::format(&i32::MIN), "*");
}

#[test]
fn bools_marks_every_flag() {
    assert_eq!(bools(&vec![]), "[]");
    assert_eq!(bools(&vec![true, false, false, true]), "[#..#]");
}

#[test]
fn remove_ampersand_strips_all_leading_ampersands() {
    assert_eq!(remove_ampersand("&&x"), "x");
    assert_eq!(remove_ampersand("x&y"), "x&y");
    assert_eq!(remove_ampersand("&"), "");
    assert_eq!(remove_ampersand(""), "");
    assert_eq!(remove_ampersand("&mut v"), "mut v");
}

#[test]
fn deconstruct_ref_tuple_gives_both_halves() {
    let pair = (3, "x");
    let (a, b) = deconstruct_ref_tuple(&pair);
    assert_eq!((*a, *b), (3, "x"));
}

fn s(text: &str) -> String {
    text.to_owned()
}

#[test]
fn hvec_lays_sequences_out_as_rows() {
    let vecs = vec![
        (s("a"), vec![cell("1", Align::Right), cell("x", Align::Left)]),
        (s("b"), vec![cell("2", Align::Right)]),
    ];
    let table = hvec(&vecs);
    assert_eq!(
        model(&table),
        vec![
            vec![
                (s(""), Align::Left),
                (s("0"), Align::Center),
                (s("1"), Align::Center)
            ],
            vec![
                (s("a"), Align::Center),
                (s("1"), Align::Right),
                (s("x"), Align::Left)
            ],
            vec![
                (s("b"), Align::Center),
                (s("2"), Align::Right),
                (s(""), Align::Left)
            ],
        ]
    );
}

#[test]
fn vvec_lays_sequences_out_as_columns() {
    let vecs = vec![
        (s("a"), vec![cell("1", Align::Right), cell("x", Align::Left)]),
        (s("b"), vec![cell("2", Align::Right)]),
    ];
    let table = vvec(&vecs);
    assert_eq!(
        model(&table),
        vec![
            vec![
                (s(""), Align::Center),
                (s("a"), Align::Center),
                (s("b"), Align::Center)
            ],
            vec![
                (s("0"), Align::Center),
                (s("1"), Align::Right),
                (s("2"), Align::Right)
            ],
            vec![
                (s("1"), Align::Center),
                (s("x"), Align::Left),
                (s(""), Align::Left)
            ],
        ]
    );
}

#[test]
fn vec2_numbers_rows_and_columns() {
    let rows = vec![
        vec![cell("7", Align::Right)],
        vec![cell("8", Align::Right), cell("9", Align::Right)],
    ];
    let table = vec2("grid", &rows);
    assert_eq!(
        model(&table),
        vec![
            vec![
                (s("grid"), Align::Left),
                (s("0"), Align::Center),
                (s("1"), Align::Center)
            ],
            vec![
                (s("0"), Align::Center),
                (s("7"), Align::Right),
                (s(""), Align::Left)
            ],
            vec![
                (s("1"), Align::Center),
                (s("8"), Align::Right),
                (s("9"), Align::Right)
            ],
        ]
    );
}

#[test]
fn vmap_and_hmap_lay_entries_out() {
    let entries = vec![
        (s("k1"), cell("1", Align::Right)),
        (s("k2"), cell("two", Align::Left)),
    ];
    assert_eq!(
        model(&vmap("m", &entries)),
        vec![
            vec![(s(""), Align::Left), (s("m"), Align::Center)],
            vec![(s("k1"), Align::Center), (s("1"), Align::Right)],
            vec![(s("k2"), Align::Center), (s("two"), Align::Left)],
        ]
    );
    assert_eq!(
        model(&hmap("m", &entries)),
        vec![
            vec![
                (s(""), Align::Left),
                (s("k1"), Align::Center),
                (s("k2"), Align::Center)
            ],
            vec![
                (s("m"), Align::Left),
                (s("1"), Align::Right),
                (s("two"), Align::Left)
            ],
        ]
    );
    assert_eq!(model(&vmap("m", &vec![])).len(), 1);
}
