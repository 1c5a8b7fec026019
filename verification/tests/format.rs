use std::fmt::Display;

use strided_array::array_index::ArrayIndex;
use strided_array::format::{
    fmt_indent, format_array, FormatOption, Token, NUM_EDGE_ELEMENTS, TRUNCATION_THRESHOLD,
};
use strided_array::order::Order;
use strided_array::slice_info::SliceInfo;
use strided_array::storage::Storage;
use strided_array::{Array, ArrayBase};

fn text(tokens: &[Token], render: impl Fn(usize) -> String) -> String {
    let mut out = String::new();
    for token in tokens {
        match token {
            Token::Open => out.push('['),
            Token::Close => out.push(']'),
            Token::Comma => out.push(','),
            Token::Space => out.push(' '),
            Token::Newlines(n) => out.push_str(&"\n".repeat(*n)),
            Token::Indent(n) => out.push_str(&" ".repeat(*n)),
            Token::Ellipsis => out.push_str("..."),
            Token::Element(position) => out.push_str(&render(*position)),
        }
    }
    out
}

fn shown<S, O>(array: &ArrayBase<S, O>, alternate: bool) -> String
where
    O: Order,
    S: Storage,
    S::Elem: Display,
{
    let option = FormatOption::new(array.len(), alternate);
    let tokens = format_array(array, 1, &option);
    text(&tokens, |position| {
        array.storage().as_slice()[position].to_string()
    })
}

#[test]
fn format_empty_arrays() {
    let a1 = Array::from(Vec::<usize>::new());
    let a2 = a1.to_shape([0, 0]).unwrap();
    let a3 = a1.to_shape([2, 0, 4]).unwrap();

    assert_eq!(shown(&a1, false), "[]");
    assert_eq!(shown(&a2, false), "[[]]");
    assert_eq!(shown(&a3, false), "[[[]]]");
}

#[test]
fn format_0d_array() {
    let a1 = Array::from(vec![1_usize]);
    let a0 = a1.slice(&SliceInfo::from(vec![ArrayIndex::from(0)]));

    assert_eq!(shown(&a0, false), "1");
}

#[test]
fn format_1d_array() {
    const N: usize = TRUNCATION_THRESHOLD + 10;
    let data = vec![1; N];
    let a1 = Array::from(data.clone());

    assert_eq!(shown(&a1, false), "[1, 1, 1, ..., 1, 1, 1]");
    assert_eq!(shown(&a1, true), format!("[{}]", ["1"; N].join(", ")));
}

#[test]
fn format_3d_array() {
    let a3 = Array::from(vec![1; 50 * 50 * 50])
        .into_shape([50, 50, 50])
        .unwrap();
    let expected = "\
[[[1, 1, 1, ..., 1, 1, 1],
  [1, 1, 1, ..., 1, 1, 1],
  [1, 1, 1, ..., 1, 1, 1],
  ...,
  [1, 1, 1, ..., 1, 1, 1],
  [1, 1, 1, ..., 1, 1, 1],
  [1, 1, 1, ..., 1, 1, 1]],

 [[1, 1, 1, ..., 1, 1, 1],
  [1, 1, 1, ..., 1, 1, 1],
  [1, 1, 1, ..., 1, 1, 1],
  ...,
  [1, 1, 1, ..., 1, 1, 1],
  [1, 1, 1, ..., 1, 1, 1],
  [1, 1, 1, ..., 1, 1, 1]],

 [[1, 1, 1, ..., 1, 1, 1],
  [1, 1, 1, ..., 1, 1, 1],
  [1, 1, 1, ..., 1, 1, 1],
  ...,
  [1, 1, 1, ..., 1, 1, 1],
  [1, 1, 1, ..., 1, 1, 1],
  [1, 1, 1, ..., 1, 1, 1]],

 ...,

 [[1, 1, 1, ..., 1, 1, 1],
  [1, 1, 1, ..., 1, 1, 1],
  [1, 1, 1, ..., 1, 1, 1],
  ...,
  [1, 1, 1, ..., 1, 1, 1],
  [1, 1, 1, ..., 1, 1, 1],
  [1, 1, 1, ..., 1, 1, 1]],

 [[1, 1, 1, ..., 1, 1, 1],
  [1, 1, 1, ..., 1, 1, 1],
  [1, 1, 1, ..., 1, 1, 1],
  ...,
  [1, 1, 1, ..., 1, 1, 1],
  [1, 1, 1, ..., 1, 1, 1],
  [1, 1, 1, ..., 1, 1, 1]],

 [[1, 1, 1, ..., 1, 1, 1],
  [1, 1, 1, ..., 1, 1, 1],
  [1, 1, 1, ..., 1, 1, 1],
  ...,
  [1, 1, 1, ..., 1, 1, 1],
  [1, 1, 1, ..., 1, 1, 1],
  [1, 1, 1, ..., 1, 1, 1]]]";

    assert_eq!(shown(&a3, false), expected);
}

#[test]
fn format_shows_the_elements_of_a_view_in_their_places() {
    let a = Array::from((0..12).collect::<Vec<usize>>())
        .into_shape([3, 4])
        .unwrap();
    let t = a.transpose();

    assert_eq!(
        shown(&t, false),
        "[[0, 4, 8],\n [1, 5, 9],\n [2, 6, 10],\n [3, 7, 11]]"
    );

    let long = Array::from((0..8).collect::<Vec<usize>>());
    let tokens = format_array(&long, 1, &FormatOption::default());

    assert_eq!(
        text(&tokens, |position| position.to_string()),
        "[0, 1, 2, ..., 5, 6, 7]"
    );
    assert_eq!(tokens[1], Token::Element(0));
    assert_eq!(tokens.len(), 2 + 6 + 6 * 2 + 1);
}

#[test]
fn format_options() {
    assert_eq!(FormatOption::default().num_edge_elements(), NUM_EDGE_ELEMENTS);
    assert_eq!(FormatOption::new(999, false).num_edge_elements(), usize::MAX / 2);
    assert_eq!(FormatOption::new(1000, false).num_edge_elements(), 3);
    assert_eq!(FormatOption::new(1000, true).num_edge_elements(), usize::MAX / 2);
    assert_eq!(
        FormatOption::default().without_truncation(false).num_edge_elements(),
        3
    );
}

#[test]
fn separators_between_entries() {
    let mut out = Vec::new();
    fmt_indent(0, 2, 1, &mut out);

    assert!(out.is_empty());

    fmt_indent(1, 1, 4, &mut out);

    assert_eq!(out, vec![Token::Comma, Token::Space]);

    fmt_indent(2, 3, 4, &mut out);

    assert_eq!(
        out[2..],
        [Token::Comma, Token::Newlines(2), Token::Indent(4)]
    );
}
