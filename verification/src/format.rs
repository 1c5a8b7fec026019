//! The printed form of an array, as a sequence of tokens: brackets around
//! every axis, separators between the entries of an axis, an ellipsis in
//! place of the middle of a long axis, and the positions of the elements
//! shown. What an element looks like is left to whoever turns the tokens
//! into text.

use vstd::prelude::*;
use crate::array::ArrayBase;
use crate::layout::{
    array_len, high_terms, lemma_array_len_first, lemma_array_len_zero, lemma_span_part,
    lemma_sum_first, low_terms, span, Layout,
};
use crate::order::Order;
use crate::storage::Storage;

verus! {

/// How many entries are shown at each end of an axis that is cut short.
pub const NUM_EDGE_ELEMENTS: usize = 3;

/// The number of elements from which on an array is cut short.
pub const TRUNCATION_THRESHOLD: usize = 1000;

/// One piece of the printed form of an array.
#[derive(Clone, Copy, Debug, PartialEq, Eq, Hash, Structural)]
pub enum Token {
    /// `[`
    Open,
    /// `]`
    Close,
    /// `,`
    Comma,
    /// One blank.
    Space,
    /// So many line breaks.
    Newlines(usize),
    /// So many blanks at the beginning of a line.
    Indent(usize),
    /// `...`
    Ellipsis,
    /// The element at this position of the buffer.
    Element(usize),
}

/// How much of each axis is shown.
pub struct FormatOption {
    num_edge_elements: usize,
}

impl Default for FormatOption {
    fn default() -> (option: Self)
        ensures
            option.edge() == NUM_EDGE_ELEMENTS,
    {
        FormatOption { num_edge_elements: NUM_EDGE_ELEMENTS }
    }
}

impl FormatOption {
    #[verifier::type_invariant]
    spec fn inv(self) -> bool {
        self.num_edge_elements <= usize::MAX / 2
    }

    /// How many entries are shown at each end of an axis that has more than
    /// twice as many.
    pub closed spec fn edge(self) -> nat {
        self.num_edge_elements as nat
    }

    /// The option for an array of `array_len` elements: an array below the
    /// threshold, and any array where `truncate` is set, is shown in full.
    pub fn new(array_len: usize, truncate: bool) -> (option: Self)
        ensures
            option.edge() == (if truncate || array_len < TRUNCATION_THRESHOLD {
                (usize::MAX / 2) as nat
            } else {
                NUM_EDGE_ELEMENTS as nat
            }),
    {
        let option = FormatOption { num_edge_elements: NUM_EDGE_ELEMENTS };
        option.without_truncation(truncate || array_len < TRUNCATION_THRESHOLD)
    }

    /// The option that shows every axis in full where `valid` is set, and
    /// `self` where it is not.
    pub fn without_truncation(self, valid: bool) -> (option: Self)
        ensures
            option.edge() == (if valid {
                (usize::MAX / 2) as nat
            } else {
                self.edge()
            }),
    {
        if valid {
            FormatOption { num_edge_elements: usize::MAX / 2 }
        } else {
            self
        }
    }

    /// How many entries are shown at each end of an axis that is cut short.
    pub fn num_edge_elements(&self) -> (n: usize)
        ensures
            n == self.edge(),
            2 * n <= usize::MAX,
    {
        proof {
            use_type_invariant(self);
        }
        self.num_edge_elements
    }
}

/// What separates the `i`-th entry of an axis from the one before it: nothing
/// before the first, else a comma followed by a blank in a one-dimensional
/// array and by line breaks and an indent in any other.
pub open spec fn separator(i: int, n_dims: int, indent: int) -> Seq<Token> {
    if i == 0 {
        Seq::empty()
    } else if n_dims > 1 {
        seq![Token::Comma, Token::Newlines((n_dims - 1) as usize), Token::Indent(indent as usize)]
    } else {
        seq![Token::Comma, Token::Space]
    }
}

/// Appends what separates the `i`-th entry of an axis from the one before it.
pub fn fmt_indent(i: usize, n_dims: usize, indent: usize, out: &mut Vec<Token>)
    ensures
        final(out)@ == old(out)@ + separator(i as int, n_dims as int, indent as int),
{
    if i != 0 {
        out.push(Token::Comma);
        if n_dims > 1 {
            out.push(Token::Newlines(n_dims - 1));
            out.push(Token::Indent(indent));
        } else {
            out.push(Token::Space);
        }
    }
    proof {
        assert(out@ =~= old(out)@ + separator(i as int, n_dims as int, indent as int));
    }
}

impl Layout {
    /// The layout of the entry at index `i` of the first axis.
    pub open spec fn at(self, i: int) -> Layout {
        Layout {
            shape: self.shape.skip(1),
            strides: self.strides.skip(1),
            offset: self.offset + i * self.strides[0],
        }
    }
}

/// `n` times the token.
pub open spec fn brackets(token: Token, n: int) -> Seq<Token> {
    Seq::new(n as nat, |k: int| token)
}

/// The printed form of the `count` entries of the first axis from `start`
/// on, each after its separator.
pub open spec fn rows_tokens(layout: Layout, indent: int, edge: nat, start: int, count: nat) -> Seq<
    Token,
>
    decreases layout.shape.len(), count,
{
    if count == 0 || layout.shape.len() == 0 {
        Seq::empty()
    } else {
        rows_tokens(layout, indent, edge, start, (count - 1) as nat) + separator(
            count - 1,
            layout.shape.len() as int,
            indent,
        ) + array_tokens(layout.at(start + count - 1), indent + 1, edge)
    }
}

/// The printed form of a layout: an empty array is a pair of brackets for
/// every axis; an array without axes is its element; any other is its
/// entries along the first axis in brackets, all of them where there are at
/// most `2 * edge`, else the first and the last `edge` around an ellipsis.
pub open spec fn array_tokens(layout: Layout, indent: int, edge: nat) -> Seq<Token>
    decreases layout.shape.len(), usize::MAX + 1,
{
    let n = layout.shape.len() as int;
    if array_len(layout.shape) == 0 {
        brackets(Token::Open, n) + brackets(Token::Close, n)
    } else if n == 0 {
        seq![Token::Element(layout.offset as usize)]
    } else {
        let len = layout.shape[0] as int;
        if len > edge * 2 {
            seq![Token::Open] + rows_tokens(layout, indent, edge, 0, edge) + separator(1, n, indent)
                + seq![Token::Ellipsis] + separator(1, n, indent) + rows_tokens(
                layout,
                indent,
                edge,
                len - edge,
                edge,
            ) + seq![Token::Close]
        } else {
            seq![Token::Open] + rows_tokens(layout, indent, edge, 0, len as nat) + seq![
                Token::Close,
            ]
        }
    }
}

/// An entry of the first axis of a well-formed layout that has elements is a
/// well-formed layout that has elements.
pub proof fn lemma_at(layout: Layout, limit: int, i: int)
    requires
        layout.wf(limit),
        layout.len() > 0,
        layout.shape.len() >= 1,
        0 <= i < layout.shape[0],
    ensures
        layout.at(i).wf(limit),
        layout.at(i).len() > 0,
        0 <= layout.at(i).offset < limit,
{
    let sub = layout.at(i);
    lemma_array_len_first(layout.shape);
    assert(sub.len() > 0) by (nonlinear_arith)
        requires
            layout.len() == (layout.shape[0] as nat) * sub.len(),
            layout.len() > 0,
    ;
    lemma_span_part(layout.shape, 1, layout.shape.len() as int);
    assert(layout.shape.subrange(1, layout.shape.len() as int) =~= layout.shape.skip(1));
    let lo = low_terms(layout.shape, layout.strides);
    let hi = high_terms(layout.shape, layout.strides);
    lemma_sum_first(lo);
    lemma_sum_first(hi);
    assert(lo.skip(1) =~= low_terms(sub.shape, sub.strides));
    assert(hi.skip(1) =~= high_terms(sub.shape, sub.strides));
    crate::array::slicing::lemma_within_reach(i, layout.shape[0], layout.strides[0]);
    assert(layout.strides[0] * i == i * layout.strides[0]) by (nonlinear_arith);
    crate::layout::lemma_extremes_in_bounds(sub, limit);
}

/// Appends the printed form of a layout that has elements.
fn format_layout(
    shape: &[usize],
    strides: &[isize],
    offset: usize,
    limit: Ghost<int>,
    indent: usize,
    edge: usize,
    out: &mut Vec<Token>,
)
    requires
        (Layout { shape: shape@, strides: strides@, offset: offset as int }).wf(limit@),
        array_len(shape@) > 0,
        indent + shape@.len() <= usize::MAX,
        2 * edge <= usize::MAX,
    ensures
        final(out)@ == old(out)@ + array_tokens(
            Layout { shape: shape@, strides: strides@, offset: offset as int },
            indent as int,
            edge as nat,
        ),
    decreases shape@.len(), usize::MAX + 1,
{
    let ghost layout = Layout { shape: shape@, strides: strides@, offset: offset as int };
    let n_dims: usize = shape.len();
    if n_dims == 0 {
        out.push(Token::Element(offset));
        proof {
            assert(out@ =~= old(out)@ + array_tokens(layout, indent as int, edge as nat));
        }
        return ;
    }
    out.push(Token::Open);
    let len: usize = shape[0];
    if len > edge * 2 {
        format_rows(shape, strides, offset, limit, indent, edge, 0, edge, out);
        fmt_indent(1, n_dims, indent, out);
        out.push(Token::Ellipsis);
        fmt_indent(1, n_dims, indent, out);
        format_rows(shape, strides, offset, limit, indent, edge, len - edge, edge, out);
    } else {
        format_rows(shape, strides, offset, limit, indent, edge, 0, len, out);
    }
    out.push(Token::Close);
    proof {
        assert(out@ =~= old(out)@ + array_tokens(layout, indent as int, edge as nat));
    }
}

/// Appends the printed form of the `count` entries of the first axis from
/// `start` on, each after its separator.
fn format_rows(
    shape: &[usize],
    strides: &[isize],
    offset: usize,
    limit: Ghost<int>,
    indent: usize,
    edge: usize,
    start: usize,
    count: usize,
    out: &mut Vec<Token>,
)
    requires
        (Layout { shape: shape@, strides: strides@, offset: offset as int }).wf(limit@),
        array_len(shape@) > 0,
        shape@.len() >= 1,
        indent + shape@.len() <= usize::MAX,
        2 * edge <= usize::MAX,
        start + count <= shape@[0],
    ensures
        final(out)@ == old(out)@ + rows_tokens(
            Layout { shape: shape@, strides: strides@, offset: offset as int },
            indent as int,
            edge as nat,
            start as int,
            count as nat,
        ),
    decreases shape@.len(), count,
{
    let ghost layout = Layout { shape: shape@, strides: strides@, offset: offset as int };
    if count == 0 {
        proof {
            assert(out@ =~= old(out)@ + rows_tokens(
                layout,
                indent as int,
                edge as nat,
                start as int,
                0,
            ));
        }
        return ;
    }
    let n_dims: usize = shape.len();
    format_rows(shape, strides, offset, limit, indent, edge, start, count - 1, out);
    fmt_indent(count - 1, n_dims, indent, out);
    let i: usize = start + (count - 1);
    proof {
        lemma_at(layout, limit@, i as int);
        assert(strides@[0] * i == i * strides@[0]) by (nonlinear_arith);
        vstd::slice::axiom_spec_len(shape);
        vstd::slice::axiom_spec_len(strides);
    }
    let at: i128 = offset as i128 + crate::arith::mul_stride(strides[0], i);
    let rest_shape = vstd::slice::slice_subrange(shape, 1, n_dims);
    let rest_strides = vstd::slice::slice_subrange(strides, 1, n_dims);
    proof {
        assert(rest_shape@ =~= shape@.skip(1));
        assert(rest_strides@ =~= strides@.skip(1));
    }
    format_layout(rest_shape, rest_strides, at as usize, limit, indent + 1, edge, out);
    proof {
        assert(out@ =~= old(out)@ + rows_tokens(
            layout,
            indent as int,
            edge as nat,
            start as int,
            count as nat,
        ));
    }
}

/// Appends `n` times the token.
fn push_brackets(token: Token, n: usize, out: &mut Vec<Token>)
    ensures
        final(out)@ == old(out)@ + brackets(token, n as int),
{
    let mut k: usize = 0;
    assert(out@ =~= old(out)@ + brackets(token, 0));
    while k < n
        invariant
            k <= n,
            out@ == old(out)@ + brackets(token, k as int),
        decreases n - k,
    {
        out.push(token);
        assert(out@ =~= old(out)@ + brackets(token, k + 1));
        k = k + 1;
    }
}

/// The printed form of an array, the entries of the first axis indented by
/// `indent`.
pub fn format_array<S: Storage, O: Order>(
    array: &ArrayBase<S, O>,
    indent: usize,
    option: &FormatOption,
) -> (tokens: Vec<Token>)
    requires
        array.wf(),
        indent + array.dims().len() <= usize::MAX,
    ensures
        tokens@ == array_tokens(array.layout(), indent as int, option.edge()),
{
    let mut out: Vec<Token> = Vec::new();
    if array.is_empty() {
        let n: usize = array.ndims();
        push_brackets(Token::Open, n, &mut out);
        push_brackets(Token::Close, n, &mut out);
        proof {
            assert(out@ =~= array_tokens(array.layout(), indent as int, option.edge()));
        }
        return out;
    }
    let edge: usize = option.num_edge_elements();
    format_layout(
        array.shape().as_slice(),
        array.strides().as_slice(),
        array.offset(),
        Ghost(array.buffer().len() as int),
        indent,
        edge,
        &mut out,
    );
    out
}

} // verus!
