//! Tree printing of the AST
//!
//! An expression is drawn as text: a leaf is the integer, and an operation
//! puts its operator above its two operands, joined to them by `/` and `\`
//! with `_` underneath the operator between them.
use vstd::prelude::*;

use crate::parser::{operator_char, Expression, ExpressionKind};
use crate::text::{
    char_is_whitespace, decimal_text, is_whitespace, lemma_decimal_text_digits,
    lemma_decimal_text_nonempty, push_char, signed_chars, signed_text, trim_end,
};

verus! {

pub struct Tree<'expr>(&'expr Expression);

/// A rendered subtree
struct Block {
    rows: Vec<Vec<char>>,
    width: usize,
    root: usize,
}

/// The drawing of a subtree: its rows, the width that it takes up and the
/// column of its root.
pub struct Layout {
    pub rows: Seq<Seq<char>>,
    pub width: nat,
    pub root: nat,
}

/// The root lies inside the width, and so does every row.
pub open spec fn layout_wf(l: Layout) -> bool {
    &&& l.root < l.width
    &&& forall|i: int| 0 <= i < l.rows.len() ==> (#[trigger] l.rows[i]).len() <= l.width
}

/// A row filled up with spaces to at least `width` characters.
pub open spec fn pad(row: Seq<char>, width: nat) -> Seq<char> {
    if row.len() >= width {
        row
    } else {
        row + Seq::new((width - row.len()) as nat, |i: int| ' ')
    }
}

/// Row `i` of `rows`, or an empty row past the last one.
pub open spec fn row_or_empty(rows: Seq<Seq<char>>, i: int) -> Seq<char> {
    if 0 <= i < rows.len() {
        rows[i]
    } else {
        seq![]
    }
}

/// The drawing of a leaf: its label, rooted at the middle (left of middle
/// for an even width).
pub open spec fn leaf_layout(label: Seq<char>) -> Layout {
    Layout { rows: seq![label], width: label.len(), root: ((label.len() - 1) / 2) as nat }
}

/// The space between two subtrees whose roots would otherwise be `distance`
/// columns apart: at least one column, enough to put the roots at least
/// four columns apart, and an even distance between the roots.
pub open spec fn gap_for(distance: nat) -> nat {
    let g: nat = if distance < 4 { (4 - distance) as nat } else { 0 };
    let g: nat = if g < 1 { 1 } else { g };
    g + (distance + g) % 2
}

/// The drawing of an operator over two subtrees: the operator centred
/// between the two roots with `_` between them, a `/` and a `\` right below,
/// then the two subtrees side by side; every row without trailing spaces.
pub open spec fn join_layout(operator: char, l: Layout, r: Layout) -> Layout {
    let distance = (l.width - l.root + r.root) as nat;
    let offset = l.width + gap_for(distance);
    let width = offset + r.width;
    let left_root = l.root;
    let right_root = offset + r.root;
    let root = ((left_root + right_root) / 2) as nat;
    let top = Seq::new(
        width,
        |i: int|
            if i == root {
                operator
            } else if left_root + 2 <= i < right_root - 1 {
                '_'
            } else {
                ' '
            },
    );
    let branches = Seq::new(
        width,
        |i: int|
            if i == left_root + 1 {
                '/'
            } else if i == right_root - 1 {
                '\\'
            } else {
                ' '
            },
    );
    let n = if l.rows.len() >= r.rows.len() { l.rows.len() } else { r.rows.len() };
    let body = Seq::new(
        n,
        |i: int| trim_end(pad(row_or_empty(l.rows, i), offset) + row_or_empty(r.rows, i)),
    );
    Layout { rows: seq![trim_end(top), trim_end(branches)] + body, width, root }
}

/// The drawing of an expression.
pub open spec fn layout(e: Expression) -> Layout
    decreases e,
{
    match e.kind {
        ExpressionKind::Integer(n) => leaf_layout(signed_text(n as int)),
        ExpressionKind::Binary { left, operator, right } => join_layout(
            operator_char(operator),
            layout(*left),
            layout(*right),
        ),
    }
}

/// Rows written one after the other, each ended by a line feed.
pub open spec fn lines(rows: Seq<Seq<char>>) -> Seq<char>
    decreases rows.len(),
{
    if rows.len() == 0 {
        seq![]
    } else {
        lines(rows.drop_last()) + rows.last().push('\n')
    }
}

/// The text of the drawing of an expression.
pub open spec fn render(e: Expression) -> Seq<char> {
    lines(layout(e).rows)
}

/// Trimming never lengthens a row.
pub proof fn lemma_trim_end_len(row: Seq<char>)
    ensures
        trim_end(row).len() <= row.len(),
    decreases row.len(),
{
    if row.len() > 0 && is_whitespace(row.last()) {
        lemma_trim_end_len(row.drop_last());
    }
}

/// The drawing of an expression keeps its root and its rows inside its width.
pub proof fn law_drawing_fits(e: Expression)
    ensures
        layout_wf(layout(e)),
    decreases e,
{
    match e.kind {
        ExpressionKind::Integer(n) => {
            lemma_signed_text_nonempty(n as int);
        },
        ExpressionKind::Binary { left, operator, right } => {
            law_drawing_fits(*left);
            law_drawing_fits(*right);
            lemma_join_wf(operator_char(operator), layout(*left), layout(*right));
        },
    }
}

/// Trimming a trimmed row changes nothing.
proof fn lemma_trim_end_idempotent(row: Seq<char>)
    ensures
        trim_end(trim_end(row)) == trim_end(row),
    decreases row.len(),
{
    if row.len() > 0 && is_whitespace(row.last()) {
        lemma_trim_end_idempotent(row.drop_last());
    }
}

/// No row of a drawing ends in whitespace.
pub proof fn law_rows_trimmed(e: Expression)
    ensures
        forall|i: int|
            0 <= i < layout(e).rows.len() ==> trim_end(#[trigger] layout(e).rows[i]) == layout(
                e,
            ).rows[i],
{
    let rows = layout(e).rows;
    match e.kind {
        ExpressionKind::Integer(n) => {
            let label = signed_text(n as int);
            let magnitude: nat = if n < 0 { (-n) as nat } else { n as nat };
            lemma_decimal_text_digits(magnitude);
            let d = decimal_text(magnitude);
            assert(label.last() == d.last());
            assert(!is_whitespace(label.last()));
            assert(rows[0] == label);
        },
        ExpressionKind::Binary { left, operator, right } => {
            assert forall|i: int| 0 <= i < rows.len() implies trim_end(#[trigger] rows[i])
                == rows[i] by {
                let l = layout(*left);
                let r = layout(*right);
                let j = join_layout(operator_char(operator), l, r);
                assert(rows == j.rows);
                if i >= 2 {
                    let offset = l.width + gap_for((l.width - l.root + r.root) as nat);
                    lemma_trim_end_idempotent(
                        pad(row_or_empty(l.rows, i - 2), offset) + row_or_empty(r.rows, i - 2),
                    );
                } else {
                    let distance = (l.width - l.root + r.root) as nat;
                    let offset = l.width + gap_for(distance);
                    let width = offset + r.width;
                    let left_root = l.root;
                    let right_root = offset + r.root;
                    let root = ((left_root + right_root) / 2) as nat;
                    let top = Seq::new(
                        width,
                        |x: int|
                            if x == root {
                                operator_char(operator)
                            } else if left_root + 2 <= x < right_root - 1 {
                                '_'
                            } else {
                                ' '
                            },
                    );
                    let branches = Seq::new(
                        width,
                        |x: int|
                            if x == left_root + 1 {
                                '/'
                            } else if x == right_root - 1 {
                                '\\'
                            } else {
                                ' '
                            },
                    );
                    lemma_trim_end_idempotent(top);
                    lemma_trim_end_idempotent(branches);
                    assert(j.rows[0] == trim_end(top));
                    assert(j.rows[1] == trim_end(branches));
                }
            }
        },
    }
}

/// Every character of the row is ASCII.
pub open spec fn ascii_row(row: Seq<char>) -> bool {
    forall|k: int| 0 <= k < row.len() ==> (#[trigger] row[k]) <= '\u{7f}'
}

/// Trimming keeps a prefix of the row.
proof fn lemma_trim_end_prefix(row: Seq<char>)
    ensures
        trim_end(row).len() <= row.len(),
        trim_end(row) == row.take(trim_end(row).len() as int),
    decreases row.len(),
{
    if row.len() > 0 && is_whitespace(row.last()) {
        lemma_trim_end_prefix(row.drop_last());
        assert(row.drop_last().take(trim_end(row).len() as int) =~= row.take(
            trim_end(row).len() as int,
        ));
    } else {
        assert(row.take(row.len() as int) =~= row);
    }
}

/// A trimmed ASCII row is ASCII.
proof fn lemma_trim_end_ascii(row: Seq<char>)
    requires
        ascii_row(row),
    ensures
        ascii_row(trim_end(row)),
{
    lemma_trim_end_prefix(row);
    assert forall|k: int| 0 <= k < trim_end(row).len() implies (#[trigger] trim_end(row)[k])
        <= '\u{7f}' by {
        assert(trim_end(row)[k] == row[k]);
    }
}

/// Every row of a drawing is ASCII, so its width in characters is its width
/// in bytes.
pub proof fn law_rows_ascii(e: Expression)
    ensures
        forall|i: int| 0 <= i < layout(e).rows.len() ==> ascii_row(#[trigger] layout(e).rows[i]),
    decreases e,
{
    let rows = layout(e).rows;
    match e.kind {
        ExpressionKind::Integer(n) => {
            let label = signed_text(n as int);
            let magnitude: nat = if n < 0 { (-n) as nat } else { n as nat };
            lemma_decimal_text_digits(magnitude);
            assert(rows[0] == label);
            assert forall|k: int| 0 <= k < label.len() implies (#[trigger] label[k]) <= '\u{7f}' by {
                if n < 0 {
                    if k > 0 {
                        assert(label[k] == decimal_text(magnitude)[k - 1]);
                    }
                } else {
                    assert(label[k] == decimal_text(magnitude)[k]);
                }
            }
        },
        ExpressionKind::Binary { left, operator, right } => {
            law_rows_ascii(*left);
            law_rows_ascii(*right);
            let l = layout(*left);
            let r = layout(*right);
            let j = join_layout(operator_char(operator), l, r);
            assert(rows == j.rows);
            let distance = (l.width - l.root + r.root) as nat;
            let offset = l.width + gap_for(distance);
            let width = offset + r.width;
            let left_root = l.root;
            let right_root = offset + r.root;
            let root = ((left_root + right_root) / 2) as nat;
            let top = Seq::new(
                width,
                |x: int|
                    if x == root {
                        operator_char(operator)
                    } else if left_root + 2 <= x < right_root - 1 {
                        '_'
                    } else {
                        ' '
                    },
            );
            let branches = Seq::new(
                width,
                |x: int|
                    if x == left_root + 1 {
                        '/'
                    } else if x == right_root - 1 {
                        '\\'
                    } else {
                        ' '
                    },
            );
            lemma_trim_end_ascii(top);
            lemma_trim_end_ascii(branches);
            assert(j.rows[0] == trim_end(top));
            assert(j.rows[1] == trim_end(branches));
            assert forall|i: int| 2 <= i < rows.len() implies ascii_row(#[trigger] rows[i]) by {
                let lr = row_or_empty(l.rows, i - 2);
                let rr = row_or_empty(r.rows, i - 2);
                let joined = pad(lr, offset) + rr;
                assert forall|k: int| 0 <= k < joined.len() implies (#[trigger] joined[k])
                    <= '\u{7f}' by {
                    if k < pad(lr, offset).len() {
                        if k < lr.len() {
                            assert(joined[k] == lr[k]);
                        } else {
                            assert(joined[k] == ' ');
                        }
                    } else {
                        assert(joined[k] == rr[k - pad(lr, offset).len()]);
                    }
                }
                lemma_trim_end_ascii(joined);
                assert(rows[i] == trim_end(joined));
            }
        },
    }
}

proof fn lemma_signed_text_nonempty(n: int)
    ensures
        signed_text(n).len() >= 1,
{
    if n < 0 {
        lemma_decimal_text_nonempty((-n) as nat);
    } else {
        lemma_decimal_text_nonempty(n as nat);
    }
}

/// Joining two well-formed drawings gives a well-formed drawing that is
/// wider than either of them.
pub proof fn lemma_join_wf(operator: char, l: Layout, r: Layout)
    requires
        layout_wf(l),
        layout_wf(r),
    ensures
        layout_wf(join_layout(operator, l, r)),
        join_layout(operator, l, r).width > l.width + r.width,
{
    let j = join_layout(operator, l, r);
    let distance = (l.width - l.root + r.root) as nat;
    let offset = l.width + gap_for(distance);
    assert forall|i: int| 0 <= i < j.rows.len() implies (#[trigger] j.rows[i]).len() <= j.width by {
        if i >= 2 {
            let k = i - 2;
            let lrow = row_or_empty(l.rows, k);
            let rrow = row_or_empty(r.rows, k);
            lemma_trim_end_len(pad(lrow, offset) + rrow);
            if 0 <= k < l.rows.len() {
                assert(l.rows[k].len() <= l.width);
            }
            if 0 <= k < r.rows.len() {
                assert(r.rows[k].len() <= r.width);
            }
        } else {
            let top = j.rows[0];
            let branches = j.rows[1];
            lemma_trim_end_len(
                Seq::new(
                    j.width,
                    |x: int|
                        if x == j.root {
                            operator
                        } else if l.root + 2 <= x < offset + r.root - 1 {
                            '_'
                        } else {
                            ' '
                        },
                ),
            );
            lemma_trim_end_len(
                Seq::new(
                    j.width,
                    |x: int|
                        if x == l.root + 1 {
                            '/'
                        } else if x == offset + r.root - 1 {
                            '\\'
                        } else {
                            ' '
                        },
                ),
            );
        }
    }
}

// ---------------------------------------------------------------------------
// Rendering
// ---------------------------------------------------------------------------

impl View for Block {
    type V = Layout;

    closed spec fn view(&self) -> Layout {
        Layout {
            rows: self.rows@.map_values(|row: Vec<char>| row@),
            width: self.width as nat,
            root: self.root as nat,
        }
    }
}

/// Removes the trailing whitespace of a row.
fn trim_row(row: &mut Vec<char>)
    ensures
        final(row)@ == trim_end(old(row)@),
{
    while row.len() > 0 && char_is_whitespace(row[row.len() - 1])
        invariant
            trim_end(row@) == trim_end(old(row)@),
        decreases row@.len(),
    {
        let ghost before = row@;
        row.pop();
        assert(row@ =~= before.drop_last());
    }
}

/// Appends the characters of `src` to `dst`.
fn append_chars(dst: &mut Vec<char>, src: &Vec<char>)
    ensures
        final(dst)@ == old(dst)@ + src@,
{
    let mut i: usize = 0;
    while i < src.len()
        invariant
            i <= src@.len(),
            dst@ == old(dst)@ + src@.take(i as int),
        decreases src@.len() - i,
    {
        dst.push(src[i]);
        i = i + 1;
        assert(dst@ =~= old(dst)@ + src@.take(i as int));
    }
    assert(src@.take(src@.len() as int) =~= src@);
}

/// A row of `width` spaces.
fn blank_row(width: usize) -> (row: Vec<char>)
    ensures
        row@ == Seq::new(width as nat, |i: int| ' '),
{
    let mut row: Vec<char> = Vec::new();
    while row.len() < width
        invariant
            row@.len() <= width,
            forall|i: int| 0 <= i < row@.len() ==> row@[i] == ' ',
        decreases width - row@.len(),
    {
        row.push(' ');
    }
    assert(row@ =~= Seq::new(width as nat, |i: int| ' '));
    row
}

impl Block {
    fn of(expr: &Expression) -> (b: Self)
        requires
            layout(*expr).width <= usize::MAX,
        ensures
            b@ == layout(*expr),
        decreases expr,
    {
        proof {
            law_drawing_fits(*expr);
        }
        match &expr.kind {
            ExpressionKind::Integer(value) => Self::leaf(signed_chars(*value)),
            ExpressionKind::Binary { left, operator, right } => {
                proof {
                    law_drawing_fits(**left);
                    law_drawing_fits(**right);
                    lemma_join_wf(operator_char(*operator), layout(**left), layout(**right));
                }
                Self::join(char::from(*operator), Self::of(left), Self::of(right))
            },
        }
    }

    fn leaf(label: Vec<char>) -> (b: Self)
        requires
            label@.len() >= 1,
        ensures
            b@ == leaf_layout(label@),
    {
        let width = label.len();
        let mut rows: Vec<Vec<char>> = Vec::new();
        rows.push(label);
        let b = Self { root: (width - 1) / 2, rows, width };
        assert(b@.rows =~= seq![label@]);
        b
    }

    fn join(operator: char, left: Block, right: Block) -> (b: Self)
        requires
            layout_wf(left@),
            layout_wf(right@),
            join_layout(operator, left@, right@).width <= usize::MAX,
        ensures
            b@ == join_layout(operator, left@, right@),
    {
        let ghost j = join_layout(operator, left@, right@);
        // children roots need to be at least 4 columns apart, and an even distance
        // apart, so `/`, the operator and `\` each get their own centered column
        let distance = left.width - left.root + right.root;
        let mut gap: usize = if distance < 4 { 4 - distance } else { 0 };
        if gap < 1 {
            gap = 1;
        }
        gap = gap + (distance + gap) % 2;
        assert(gap == gap_for(distance as nat));

        let offset = left.width + gap;
        let width = offset + right.width;
        let (left_root, right_root) = (left.root, offset + right.root);
        let root = left_root + (right_root - left_root) / 2;
        assert(root == j.root);

        let mut top = blank_row(width);
        let mut i = left_root + 2;
        while i < right_root - 1
            invariant
                left_root + 2 <= i <= right_root - 1,
                right_root < width,
                top@ =~= Seq::new(
                    width as nat,
                    |x: int|
                        if left_root + 2 <= x < i {
                            '_'
                        } else {
                            ' '
                        },
                ),
            decreases right_root - 1 - i,
        {
            top.set(i, '_');
            i = i + 1;
        }
        top.set(root, operator);
        assert(top@ =~= Seq::new(
            width as nat,
            |x: int|
                if x == root {
                    operator
                } else if left_root + 2 <= x < right_root - 1 {
                    '_'
                } else {
                    ' '
                },
        ));

        let mut branches = blank_row(width);
        branches.set(left_root + 1, '/');
        branches.set(right_root - 1, '\\');
        assert(branches@ =~= Seq::new(
            width as nat,
            |x: int|
                if x == left_root + 1 {
                    '/'
                } else if x == right_root - 1 {
                    '\\'
                } else {
                    ' '
                },
        ));

        trim_row(&mut top);
        trim_row(&mut branches);
        let mut rows: Vec<Vec<char>> = Vec::new();
        rows.push(top);
        rows.push(branches);

        let n = if left.rows.len() >= right.rows.len() {
            left.rows.len()
        } else {
            right.rows.len()
        };
        let mut k: usize = 0;
        while k < n
            invariant
                k <= n,
                n == j.rows.len() - 2,
                offset == left.width + gap,
                gap == gap_for(distance as nat),
                distance == left.width - left.root + right.root,
                left.width < offset,
                layout_wf(left@),
                j == join_layout(operator, left@, right@),
                rows@.len() == k + 2,
                forall|x: int| 0 <= x < k + 2 ==> (#[trigger] rows@[x])@ == j.rows[x],
            decreases n - k,
        {
            let mut row: Vec<char> = Vec::new();
            if k < left.rows.len() {
                append_chars(&mut row, &left.rows[k]);
                assert(left@.rows[k as int] == left.rows@[k as int]@);
            }
            assert(row@ == row_or_empty(left@.rows, k as int));
            while row.len() < offset
                invariant
                    row@.len() <= offset || row@ == row_or_empty(left@.rows, k as int),
                    pad(row@, offset as nat) == pad(row_or_empty(left@.rows, k as int), offset as nat),
                decreases offset - row@.len(),
            {
                let ghost before = row@;
                row.push(' ');
                assert(pad(row@, offset as nat) =~= pad(before, offset as nat));
            }
            assert(row@ =~= pad(row_or_empty(left@.rows, k as int), offset as nat));
            let ghost padded = row@;
            if k < right.rows.len() {
                append_chars(&mut row, &right.rows[k]);
                assert(right@.rows[k as int] == right.rows@[k as int]@);
            } else {
                assert(row@ =~= row@ + row_or_empty(right@.rows, k as int));
            }
            assert(row@ == padded + row_or_empty(right@.rows, k as int));
            trim_row(&mut row);
            assert(j.rows[k + 2] == trim_end(
                pad(row_or_empty(left@.rows, k as int), offset as nat) + row_or_empty(
                    right@.rows,
                    k as int,
                ),
            ));
            let ghost rows_before = rows@;
            rows.push(row);
            assert(rows@[k + 2]@ == j.rows[k + 2]);
            assert forall|x: int| 0 <= x < k + 3 implies (#[trigger] rows@[x])@ == j.rows[x] by {
                if x < k + 2 {
                    assert(rows@[x] == rows_before[x]);
                }
            }
            k = k + 1;
        }
        let b = Self { rows, width, root };
        assert(b@.rows =~= j.rows);
        b
    }
}

impl Expression {
    pub fn tree(&self) -> (t: Tree<'_>)
        ensures
            t.expression() == *self,
    {
        Tree(self)
    }
}

impl<'expr> Tree<'expr> {
    /// The expression that the tree draws.
    pub closed spec fn expression(&self) -> Expression {
        *self.0
    }

    /// The drawing of the expression, one line per row, as `render` spells it.
    pub fn to_string(&self) -> (r: String)
        requires
            layout(self.expression()).width <= usize::MAX,
        ensures
            r@ == render(self.expression()),
    {
        let block = Block::of(self.0);
        let ghost rows = block@.rows;
        let mut s = String::new();
        let mut i: usize = 0;
        while i < block.rows.len()
            invariant
                i <= block.rows@.len(),
                rows == block@.rows,
                s@ == lines(rows.take(i as int)),
            decreases block.rows@.len() - i,
        {
            let row = &block.rows[i];
            let ghost before = s@;
            let mut k: usize = 0;
            while k < row.len()
                invariant
                    k <= row@.len(),
                    s@ == before + row@.take(k as int),
                decreases row@.len() - k,
            {
                push_char(&mut s, row[k]);
                k = k + 1;
                assert(s@ =~= before + row@.take(k as int));
            }
            push_char(&mut s, '\n');
            proof {
                assert(row@.take(row@.len() as int) =~= row@);
                assert(rows.take(i + 1).drop_last() =~= rows.take(i as int));
                assert(rows[i as int] == row@);
            }
            i = i + 1;
        }
        proof {
            assert(rows.take(rows.len() as int) =~= rows);
        }
        s
    }
}

// ---------------------------------------------------------------------------
// Laws of drawing
// ---------------------------------------------------------------------------

/// How deeply operations nest in an expression.
pub open spec fn depth(e: Expression) -> nat
    decreases e,
{
    match e.kind {
        ExpressionKind::Integer(_) => 0,
        ExpressionKind::Binary { left, right, .. } => {
            let l = depth(*left);
            let r = depth(*right);
            1 + if l >= r { l } else { r }
        },
    }
}

/// A drawing has one row for a leaf, and two more rows for every level of
/// operations.
pub proof fn law_drawing_height(e: Expression)
    ensures
        layout(e).rows.len() == 2 * depth(e) + 1,
    decreases e,
{
    if let ExpressionKind::Binary { left, right, .. } = e.kind {
        law_drawing_height(*left);
        law_drawing_height(*right);
    }
}

/// Trimming keeps every character up to the last one that is not whitespace.
pub proof fn lemma_trim_end_keeps(row: Seq<char>, i: int)
    requires
        0 <= i < row.len(),
        !is_whitespace(row[i]),
    ensures
        i < trim_end(row).len(),
        trim_end(row)[i] == row[i],
    decreases row.len(),
{
    if row.len() > 0 && is_whitespace(row.last()) {
        lemma_trim_end_keeps(row.drop_last(), i);
    }
}

/// An operation's drawing has its operator in the top row, in the root's
/// column; a leaf's drawing is its integer.
pub proof fn law_operator_on_top(e: Expression)
    ensures
        e.kind matches ExpressionKind::Binary { operator, .. } ==> layout(e).root < layout(
            e,
        ).rows[0].len() && layout(e).rows[0][layout(e).root as int] == operator_char(operator),
        e.kind matches ExpressionKind::Integer(n) ==> render(e) == signed_text(n as int).push('\n'),
{
    match e.kind {
        ExpressionKind::Binary { left, operator, right } => {
            law_drawing_fits(*left);
            law_drawing_fits(*right);
            let l = layout(*left);
            let r = layout(*right);
            let distance = (l.width - l.root + r.root) as nat;
            let offset = l.width + gap_for(distance);
            let width = offset + r.width;
            let root = ((l.root + offset + r.root) / 2) as nat;
            let top = Seq::new(
                width,
                |i: int|
                    if i == root {
                        operator_char(operator)
                    } else if l.root + 2 <= i < offset + r.root - 1 {
                        '_'
                    } else {
                        ' '
                    },
            );
            assert(layout(e).rows[0] == trim_end(top));
            lemma_trim_end_keeps(top, root as int);
        },
        ExpressionKind::Integer(n) => {
            let rows = layout(e).rows;
            assert(rows.drop_last() =~= Seq::<Seq<char>>::empty());
            assert(lines(rows.drop_last()) == Seq::<char>::empty());
            assert(render(e) =~= signed_text(n as int).push('\n'));
        },
    }
}

/// Where row `k` starts in the text: after each row before it and its line
/// feed.
pub open spec fn row_start(rows: Seq<Seq<char>>, k: nat) -> int
    decreases k,
{
    if k == 0 {
        0
    } else {
        row_start(rows, (k - 1) as nat) + rows[k - 1].len() + 1
    }
}

/// Where a row starts depends only on the rows before it.
proof fn lemma_row_start_prefix(rows: Seq<Seq<char>>, k: nat)
    requires
        rows.len() > 0,
        k < rows.len(),
    ensures
        row_start(rows, k) == row_start(rows.drop_last(), k),
    decreases k,
{
    if k > 0 {
        lemma_row_start_prefix(rows, (k - 1) as nat);
    }
}

/// The text of rows is as long as the rows with their line feeds.
proof fn lemma_lines_len(rows: Seq<Seq<char>>)
    ensures
        lines(rows).len() == row_start(rows, rows.len()),
    decreases rows.len(),
{
    if rows.len() > 0 {
        let n = (rows.len() - 1) as nat;
        lemma_lines_len(rows.drop_last());
        lemma_row_start_prefix(rows, n);
    }
}

/// Row `k` stands in full in the text of rows, followed by a line feed.
proof fn lemma_lines_row(rows: Seq<Seq<char>>, k: nat)
    requires
        k < rows.len(),
    ensures
        lines(rows).subrange(row_start(rows, k), row_start(rows, k) + rows[k as int].len())
            == rows[k as int],
        lines(rows)[row_start(rows, k) + rows[k as int].len()] == '\n',
    decreases rows.len(),
{
    let init = rows.drop_last();
    let n = (rows.len() - 1) as nat;
    let text = lines(rows);
    lemma_lines_len(init);
    lemma_row_start_prefix(rows, k);
    lemma_row_start_monotone(rows, 0, k);
    assert(text == lines(init) + rows.last().push('\n'));
    let a = row_start(rows, k);
    let b = a + rows[k as int].len();
    if k < n {
        lemma_lines_row(init, k);
        lemma_row_start_monotone(init, k + 1, n);
        assert(init[k as int] == rows[k as int]);
        assert(b < row_start(init, n));
        assert(text.subrange(a, b) =~= lines(init).subrange(a, b));
        assert(text[b] == lines(init)[b]);
    } else {
        assert(text.subrange(a, b) =~= rows.last());
    }
}

/// The text of rows holds every row in full, in order, each followed by a
/// line feed, and nothing else.
pub proof fn law_lines_hold_rows(rows: Seq<Seq<char>>)
    ensures
        lines(rows).len() == row_start(rows, rows.len()),
        forall|k: nat|
            k < rows.len() ==> lines(rows).subrange(
                row_start(rows, k),
                row_start(rows, k) + rows[k as int].len(),
            ) == rows[k as int] && lines(rows)[row_start(rows, k) + rows[k as int].len()] == '\n',
{
    lemma_lines_len(rows);
    assert forall|k: nat| k < rows.len() implies lines(rows).subrange(
        row_start(rows, k),
        row_start(rows, k) + rows[k as int].len(),
    ) == rows[k as int] && lines(rows)[row_start(rows, k) + rows[k as int].len()] == '\n' by {
        lemma_lines_row(rows, k);
    }
}

/// Rows start further on the later they come.
proof fn lemma_row_start_monotone(rows: Seq<Seq<char>>, j: nat, k: nat)
    requires
        j <= k,
    ensures
        row_start(rows, j) <= row_start(rows, k),
    decreases k - j,
{
    if j < k {
        lemma_row_start_monotone(rows, j, (k - 1) as nat);
    }
}

/// The text of a drawing holds each of its rows in full, each followed by a
/// line feed, and nothing else: no part of any label is dropped.
pub proof fn law_render_holds_rows(e: Expression)
    ensures
        render(e).len() == row_start(layout(e).rows, layout(e).rows.len()),
        forall|k: nat|
            k < layout(e).rows.len() ==> render(e).subrange(
                row_start(layout(e).rows, k),
                row_start(layout(e).rows, k) + layout(e).rows[k as int].len(),
            ) == layout(e).rows[k as int] && render(e)[row_start(layout(e).rows, k) + layout(
                e,
            ).rows[k as int].len()] == '\n',
{
    law_lines_hold_rows(layout(e).rows);
}

/// A trimmed row that is not empty ends in a character other than whitespace.
proof fn lemma_trimmed_last(row: Seq<char>)
    requires
        trim_end(row) == row,
        row.len() > 0,
    ensures
        !is_whitespace(row.last()),
{
    if is_whitespace(row.last()) {
        lemma_trim_end_len(row.drop_last());
    }
}

/// Trimming keeps everything up to a character other than whitespace.
proof fn lemma_trim_end_keeps_upto(row: Seq<char>, i: int)
    requires
        0 <= i < row.len(),
        !is_whitespace(row[i]),
    ensures
        i < trim_end(row).len(),
        forall|j: int| 0 <= j <= i ==> trim_end(row)[j] == row[j],
{
    lemma_trim_end_keeps(row, i);
    lemma_trim_end_prefix(row);
}

/// An operation's drawing holds both operands' drawings unchanged below
/// its operator and branches: each row of the left one at the start of a
/// row, and each row of the right one at the right operand's column.
pub proof fn law_operands_drawn_in_full(e: Expression)
    ensures
        e.kind matches ExpressionKind::Binary { left, right, .. } ==> {
            let l = layout(*left);
            let r = layout(*right);
            let w = layout(e);
            let offset = w.width - r.width;
            &&& w.rows.len() == 2 + (if l.rows.len() >= r.rows.len() {
                l.rows.len()
            } else {
                r.rows.len()
            })
            &&& l.width < offset
            &&& forall|i: int|
                0 <= i < l.rows.len() ==> #[trigger] w.rows[i + 2].len() >= l.rows[i].len()
                    && w.rows[i + 2].take(l.rows[i].len() as int) == l.rows[i]
            &&& forall|i: int|
                0 <= i < r.rows.len() && r.rows[i].len() > 0 ==> #[trigger] w.rows[i + 2].len()
                    == offset + r.rows[i].len() && w.rows[i + 2].subrange(
                    offset,
                    offset + r.rows[i].len(),
                ) == r.rows[i]
        },
{
    if let ExpressionKind::Binary { left, operator, right } = e.kind {
        let l = layout(*left);
        let r = layout(*right);
        let w = layout(e);
        law_drawing_fits(*left);
        law_drawing_fits(*right);
        law_rows_trimmed(*left);
        law_rows_trimmed(*right);
        let distance = (l.width - l.root + r.root) as nat;
        let offset = l.width + gap_for(distance);
        let o = offset as int;
        assert(w == join_layout(operator_char(operator), l, r));
        assert(w.width - r.width == offset);
        assert forall|i: int| 0 <= i < l.rows.len() implies #[trigger] w.rows[i + 2].len()
            >= l.rows[i].len() && w.rows[i + 2].take(l.rows[i].len() as int) == l.rows[i] by {
            let lr = l.rows[i];
            let joined = pad(row_or_empty(l.rows, i), offset) + row_or_empty(r.rows, i);
            assert(w.rows[i + 2] == trim_end(joined));
            assert(lr.len() <= l.width);
            if lr.len() > 0 {
                lemma_trimmed_last(lr);
                assert(joined[lr.len() - 1] == lr.last());
                lemma_trim_end_keeps_upto(joined, lr.len() - 1);
                assert forall|j: int| 0 <= j < lr.len() implies w.rows[i + 2][j] == lr[j] by {
                    assert(joined[j] == lr[j]);
                }
            }
            assert(w.rows[i + 2].take(lr.len() as int) =~= lr);
        }
        assert forall|i: int| 0 <= i < r.rows.len() && r.rows[i].len() > 0 implies #[trigger] w.rows[i
            + 2].len() == offset + r.rows[i].len() && w.rows[i + 2].subrange(
            o,
            o + r.rows[i].len(),
        ) == r.rows[i] by {
            let rr = r.rows[i];
            let lr = row_or_empty(l.rows, i);
            let padded = pad(lr, offset);
            let joined = padded + rr;
            assert(lr.len() <= l.width);
            assert(padded.len() == offset);
            assert(w.rows[i + 2] == trim_end(joined));
            lemma_trimmed_last(rr);
            let last = joined.len() - 1;
            assert(joined[last] == rr.last());
            lemma_trim_end_keeps_upto(joined, last);
            lemma_trim_end_len(joined);
            assert forall|j: int| 0 <= j < rr.len() implies w.rows[i + 2].subrange(
                o,
                o + rr.len(),
            )[j] == rr[j] by {
                assert(joined[offset + j] == rr[j]);
            }
            assert(w.rows[i + 2].subrange(o, o + rr.len()) =~= rr);
        }
    }
}

} // verus!
