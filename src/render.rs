use vstd::prelude::*;
use crate::record::Kind;
use crate::view::ViewItem;
use vstd::string::StringExecFns;

verus! {

/// The style brushes a row is painted with.
#[derive(Clone, Copy, Debug, PartialEq, Eq, Structural)]
pub enum Brush {
    Light,
    Dark,
    Information,
    Warning,
    Error,
}

/// One text node to append to the log container.
#[derive(Clone, Debug)]
pub struct Row {
    pub text: String,
    pub foreground: Brush,
    pub background: Brush,
}

/// A row as text and brushes.
pub type RowView = (Seq<char>, Brush, Brush);

impl View for Row {
    type V = RowView;

    open spec fn view(&self) -> RowView {
        (self.text@, self.foreground, self.background)
    }
}

pub open spec fn digit_char(d: nat) -> char {
    if d == 0 {
        '0'
    } else if d == 1 {
        '1'
    } else if d == 2 {
        '2'
    } else if d == 3 {
        '3'
    } else if d == 4 {
        '4'
    } else if d == 5 {
        '5'
    } else if d == 6 {
        '6'
    } else if d == 7 {
        '7'
    } else if d == 8 {
        '8'
    } else {
        '9'
    }
}

/// The decimal digits of `n`, without leading zeros.
pub open spec fn decimal(n: nat) -> Seq<char>
    decreases n,
{
    if n < 10 {
        seq![digit_char(n)]
    } else {
        decimal(n / 10).push(digit_char(n % 10))
    }
}

/// The text shown for an item: the content alone for a single record, else
/// the content followed by ` (x<count>)`.
pub open spec fn display_text(content: Seq<char>, count: nat) -> Seq<char> {
    if count > 1 {
        content + seq![' ', '(', 'x'] + decimal(count) + seq![')']
    } else {
        content
    }
}

pub open spec fn kind_brush(kind: Kind) -> Brush {
    match kind {
        Kind::Information => Brush::Information,
        Kind::Warning => Brush::Warning,
        Kind::Error => Brush::Error,
    }
}

/// Even rows are light, odd rows dark.
pub open spec fn stripe(i: int) -> Brush {
    if i % 2 == 0 {
        Brush::Light
    } else {
        Brush::Dark
    }
}

/// The rows that display a view, top to bottom.
pub open spec fn rows_for(v: Seq<(crate::record::Key, nat)>) -> Seq<RowView> {
    Seq::new(
        v.len(),
        |i: int| (display_text(v[i].0.1, v[i].1), kind_brush(v[i].0.0), stripe(i)),
    )
}

/// Relies on `ToString` for `usize` (its `Display`): the decimal digits of
/// `n`, without sign or leading zeros.
#[verifier::external_body]
fn usize_decimal(n: usize) -> (r: String)
    ensures
        r@ == decimal(n as nat),
{
    n.to_string()
}

/// The content followed by ` (x<count>)`.
fn counted_label(content: &str, count: usize) -> (r: String)
    ensures
        r@ == content@ + seq![' ', '(', 'x'] + decimal(count as nat) + seq![')'],
{
    let digits = usize_decimal(count);
    let mut label = String::from_str(content);
    label.append(" (x");
    label.append(digits.as_str());
    label.append(")");
    proof {
        reveal_strlit(" (x");
        reveal_strlit(")");
        assert(" (x"@ =~= seq![' ', '(', 'x']);
        assert(")"@ =~= seq![')']);
    }
    label
}

fn brush_of(kind: Kind) -> (r: Brush)
    ensures
        r == kind_brush(kind),
{
    match kind {
        Kind::Information => Brush::Information,
        Kind::Warning => Brush::Warning,
        Kind::Error => Brush::Error,
    }
}

/// The row for the item at position `index` of a view.
pub fn render_row(item: &ViewItem, index: usize) -> (r: Row)
    ensures
        r@ == (display_text(item.content@, item.count as nat), kind_brush(item.kind), stripe(
            index as int,
        )),
{
    let text = if item.count > 1 {
        counted_label(item.content.as_str(), item.count)
    } else {
        item.content.clone()
    };
    let background = if index % 2 == 0 {
        Brush::Light
    } else {
        Brush::Dark
    };
    Row { text, foreground: brush_of(item.kind), background }
}

/// The rows for a whole view, top to bottom.
pub fn render_rows(view: &Vec<ViewItem>) -> (r: Vec<Row>)
    ensures
        r@.map_values(|row: Row| row@) == rows_for(view@.map_values(|i: ViewItem| i@)),
{
    let mut rows: Vec<Row> = Vec::new();
    let mut i: usize = 0;
    while i < view.len()
        invariant
            i <= view@.len(),
            rows@.len() == i,
            forall|j: int|
                0 <= j < i ==> #[trigger] rows@[j]@ == rows_for(
                    view@.map_values(|it: ViewItem| it@),
                )[j],
        decreases view@.len() - i,
    {
        let row = render_row(&view[i], i);
        rows.push(row);
        i += 1;
    }
    proof {
        assert(rows@.map_values(|row: Row| row@) =~= rows_for(
            view@.map_values(|it: ViewItem| it@),
        ));
    }
    rows
}

/// What the log container must do to show a view: remove every current
/// child, then append one row per item.
pub struct RenderPlan {
    pub remove: Vec<u64>,
    pub append: Vec<Row>,
}

/// Plans a stateless re-render of the container whose children are
/// `children`.
pub fn plan_render(children: &Vec<u64>, view: &Vec<ViewItem>) -> (r: RenderPlan)
    ensures
        r.remove@ == children@,
        r.append@.map_values(|row: Row| row@) == rows_for(view@.map_values(|i: ViewItem| i@)),
{
    RenderPlan { remove: children.clone(), append: render_rows(view) }
}

/// The children of `c` whose handle is not in `removed`, in order.
pub open spec fn kept(c: Seq<(u64, RowView)>, removed: Seq<u64>) -> Seq<(u64, RowView)>
    decreases c.len(),
{
    if c.len() == 0 {
        c
    } else {
        let rest = kept(c.drop_last(), removed);
        if removed.contains(c.last().0) {
            rest
        } else {
            rest.push(c.last())
        }
    }
}

/// The rows a container shows once a plan has been carried out on children
/// `c`: the kept children, then the appended rows.
pub open spec fn settled(c: Seq<(u64, RowView)>, removed: Seq<u64>, appended: Seq<RowView>) -> Seq<
    RowView,
> {
    kept(c, removed).map_values(|x: (u64, RowView)| x.1) + appended
}

pub open spec fn handles(c: Seq<(u64, RowView)>) -> Seq<u64> {
    c.map_values(|x: (u64, RowView)| x.0)
}

proof fn lemma_all_removed(c: Seq<(u64, RowView)>, removed: Seq<u64>)
    requires
        forall|i: int| 0 <= i < c.len() ==> removed.contains(#[trigger] c[i].0),
    ensures
        kept(c, removed).len() == 0,
    decreases c.len(),
{
    if c.len() > 0 {
        assert(removed.contains(c[c.len() - 1].0));
        assert forall|i: int| 0 <= i < c.len() - 1 implies removed.contains(
            #[trigger] c.drop_last()[i].0,
        ) by {
            assert(c.drop_last()[i] == c[i]);
        }
        lemma_all_removed(c.drop_last(), removed);
    }
}

/// A re-render leaves exactly the view's rows in the container, whatever it
/// showed before; so rendering the same view twice leaves the same rows as
/// rendering it once.
pub proof fn lemma_rerender_idempotent(
    first: Seq<(u64, RowView)>,
    second: Seq<(u64, RowView)>,
    v: Seq<(crate::record::Key, nat)>,
)
    ensures
        settled(first, handles(first), rows_for(v)) == rows_for(v),
        settled(second, handles(second), rows_for(v)) == settled(
            first,
            handles(first),
            rows_for(v),
        ),
{
    assert forall|c: Seq<(u64, RowView)>|
        settled(c, handles(c), rows_for(v)) == rows_for(v) by {
        assert forall|i: int| 0 <= i < c.len() implies handles(c).contains(#[trigger] c[i].0) by {
            assert(handles(c)[i] == c[i].0);
        }
        lemma_all_removed(c, handles(c));
        assert(settled(c, handles(c), rows_for(v)) =~= rows_for(v));
    }
}

} // verus!
