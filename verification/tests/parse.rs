use nom::bytes::complete::is_not;
use nom::character::complete::{line_ending, not_line_ending, space0};
use nom::combinator::{opt, value};
use nom::multi::separated_list0;
use nom::sequence::preceded;
use nom::{IResult, Parser};

use viewfs::parse::{parse_filter, parser, FilterStep};

#[test]
fn one_path_to_a_line() {
    assert_eq!(parser("/a\n/b\r\n/c"), vec!["/a", "/b", "/c"]);
    assert_eq!(parser("/a\n"), vec!["/a"]);
    assert_eq!(parser("/with space/x\n"), vec!["/with space/x"]);
}

#[test]
fn blanks_and_empty_lines() {
    assert_eq!(parser(""), Vec::<String>::new());
    assert_eq!(parser("\n\n \t \r\n"), Vec::<String>::new());
    assert_eq!(parser(" \t/a \t \n\n\u{3000}/b\u{3000}\u{a0}\n"), vec!["/a", "\u{3000}/b"]);
}

#[test]
fn comments() {
    assert_eq!(parser("# all\n/a # one\n/b# two\r\n#\n  # three\n/c"), vec!["/a", "/b", "/c"]);
}

#[test]
fn white_space_alone_is_an_empty_path() {
    assert_eq!(parser("\u{b}\n/a"), vec!["", "/a"]);
}

#[test]
fn reading_stops_at_a_stray_return() {
    assert_eq!(parser("/a\n/b\r/c\n/d"), vec!["/a", "/b"]);
    assert_eq!(parser("/a # x\ry\n/b"), vec!["/a"]);
    assert_eq!(parser("/a\r"), vec!["/a"]);
}

#[test]
fn lines_are_independent() {
    for a in ["", "/a", "/a # c", "# c", "/a\r", "/a\n/b\r\n", "  "] {
        for b in ["", "/x", "# y\n/x", "\n\n/x", "/x\r/y"] {
            let mut expected = parser(a);
            expected.extend(parser(b));
            assert_eq!(parser(&format!("{a}\n{b}")), expected, "{a:?} {b:?}");
        }
    }
}

#[test]
fn comments_change_nothing() {
    for p in ["", "/a", "  /a/b  "] {
        for c in ["", " note", "# #/x"] {
            assert_eq!(parser(&format!("{p}#{c}")), parser(p), "{p:?} {c:?}");
        }
    }
}

fn grammar_comment(s: &str) -> IResult<&str, ()> {
    value((), preceded(nom::character::complete::char('#'), not_line_ending)).parse(s)
}

fn grammar_path(input: &str) -> IResult<&str, &str> {
    let (input, s) = is_not("\r\n#")(input)?;
    Ok((input, s.trim_end()))
}

fn grammar_line(input: &str) -> IResult<&str, Option<String>> {
    let (input, _) = space0(input)?;
    let (input, p) = opt(grammar_path).parse(input)?;
    let (input, _) = space0(input)?;
    let (input, _) = opt(grammar_comment).parse(input)?;
    Ok((input, p.map(|s| s.to_string())))
}

fn grammar(s: &str) -> IResult<&str, Vec<String>> {
    let (input, lines) = separated_list0(line_ending, grammar_line).parse(s)?;
    let (input, _) = opt(line_ending).parse(input)?;
    Ok((input, lines.into_iter().flatten().collect()))
}

#[test]
fn agrees_with_the_grammar_in_combinators() {
    let alphabet = ['\r', '\n', '#', ' ', '\t', '/', 'a', '\u{a0}'];
    let mut all = vec![String::new()];
    let mut last = vec![String::new()];
    for _ in 0..5 {
        let mut next = Vec::new();
        for s in &last {
            for c in alphabet {
                next.push(format!("{s}{c}"));
            }
        }
        all.extend(next.iter().cloned());
        last = next;
    }
    for s in &all {
        assert_eq!(parser(s), grammar(s).unwrap().1, "{s:?}");
    }
}

#[test]
fn white_space_is_that_of_std() {
    for c in '\0'..=char::MAX {
        if c == '\r' || c == '\n' || c == '#' {
            continue;
        }
        let text = format!("/x{c}");
        assert_eq!(parser(&text), vec![text.trim_end().to_string()], "{c:?}");
    }
}

#[test]
fn filters_are_resolved_in_order() {
    let mut filters = parse_filter("/b\n/a # x\n");
    let mut asked = Vec::new();
    loop {
        match filters.step() {
            FilterStep::Canonicalize(path) => {
                filters.add_resolved(format!("{path}!").into_bytes());
                asked.push(path);
            }
            FilterStep::NotAbsolute(path) => panic!("{path}"),
            FilterStep::Done => break,
        }
    }
    assert_eq!(asked, vec!["/b", "/a"]);
    assert_eq!(filters.resolved, vec![b"/b!".to_vec(), b"/a!".to_vec()]);
}

#[test]
fn repeated_filters_are_kept() {
    let mut filters = parse_filter("/a\n/b\n/a\n");
    for expected in ["/a", "/b", "/a"] {
        assert!(matches!(filters.step(), FilterStep::Canonicalize(p) if p == expected));
        filters.add_resolved(expected.as_bytes().to_vec());
    }
    assert!(matches!(filters.step(), FilterStep::Done));
    assert_eq!(filters.resolved, vec![b"/a".to_vec(), b"/b".to_vec(), b"/a".to_vec()]);
}

#[test]
fn relative_filters_are_refused() {
    let mut filters = parse_filter("/a\nb/c\n/d");
    assert!(matches!(filters.step(), FilterStep::Canonicalize(p) if p == "/a"));
    filters.add_resolved(b"/a".to_vec());
    assert!(matches!(filters.step(), FilterStep::NotAbsolute(p) if p == "b/c"));
    let empty = parse_filter("\u{b}");
    assert!(matches!(empty.step(), FilterStep::NotAbsolute(p) if p.is_empty()));
    let none = parse_filter("# nothing\n");
    assert!(matches!(none.step(), FilterStep::Done));
}
