//! Grids and palettes as fragments of a web page.

use vstd::prelude::*;
use vstd::string::StringExecFns;

verus! {

/// The width and height of one cell on the page, in pixels.
pub const CELL_SIZE: usize = 15;

/// The character of the digit `d`.
pub open spec fn digit_char(d: nat) -> char {
    if d == 0 {
        '0'
    } else if d == 1 {
        '1'
    } else if d == 2 {
        '2'
    } else if d == 3 {
        '3'
    } else if d == 4 {
        '4'
    } else if d == 5 {
        '5'
    } else if d == 6 {
        '6'
    } else if d == 7 {
        '7'
    } else if d == 8 {
        '8'
    } else {
        '9'
    }
}

/// The digits of `n` in base ten, the first of them not zero unless `n`
/// is.
pub open spec fn decimal_text(n: nat) -> Seq<char>
    decreases n,
{
    if n < 10 {
        seq![digit_char(n)]
    } else {
        decimal_text(n / 10).push(digit_char(n % 10))
    }
}

/// One cell of `color`.
pub open spec fn cell_html(color: nat) -> Seq<char> {
    "<div class=\"cell color-"@ + decimal_text(color) + "\"></div>"@
}

/// The cells of `data`, in their order.
pub open spec fn cells_html(data: Seq<u8>) -> Seq<char>
    decreases data.len(),
{
    if data.len() == 0 {
        Seq::empty()
    } else {
        cells_html(data.drop_last()) + cell_html(data.last() as nat)
    }
}

/// The grid `data`, laid out in `columns` columns.
pub open spec fn grid_html(data: Seq<u8>, columns: nat) -> Seq<char> {
    "<div class=\"grid\" style=\"grid-template-columns: repeat("@ + decimal_text(columns) + ", "@
        + decimal_text(CELL_SIZE as nat) + "px);\">"@ + cells_html(data) + "</div>"@
}

/// One cell for each color whose flag is set in `palette`, in the order of
/// the colors.
pub open spec fn swatches_html(palette: Seq<bool>) -> Seq<char>
    decreases palette.len(),
{
    if palette.len() == 0 {
        Seq::empty()
    } else if palette.last() {
        swatches_html(palette.drop_last()) + cell_html((palette.len() - 1) as nat)
    } else {
        swatches_html(palette.drop_last())
    }
}

/// The palette under the heading `text`; nothing for a palette without a
/// color.
pub open spec fn palette_html(text: Seq<char>, palette: Seq<bool>) -> Seq<char> {
    if palette.contains(true) {
        "<div>"@ + text + ":</div><div class=\"palette\">"@ + swatches_html(palette) + "</div>"@
    } else {
        Seq::empty()
    }
}

/// The digit `d` as text.
fn digit(d: usize) -> (text: &'static str)
    requires
        d < 10,
    ensures
        text@ == seq![digit_char(d as nat)],
{
    proof {
        reveal_strlit("0");
        reveal_strlit("1");
        reveal_strlit("2");
        reveal_strlit("3");
        reveal_strlit("4");
        reveal_strlit("5");
        reveal_strlit("6");
        reveal_strlit("7");
        reveal_strlit("8");
        reveal_strlit("9");
    }
    let text = if d == 0 {
        "0"
    } else if d == 1 {
        "1"
    } else if d == 2 {
        "2"
    } else if d == 3 {
        "3"
    } else if d == 4 {
        "4"
    } else if d == 5 {
        "5"
    } else if d == 6 {
        "6"
    } else if d == 7 {
        "7"
    } else if d == 8 {
        "8"
    } else {
        "9"
    };
    assert(text@ =~= seq![digit_char(d as nat)]);
    text
}

/// `n` in base ten.
pub fn decimal(n: usize) -> (text: String)
    ensures
        text@ == decimal_text(n as nat),
    decreases n,
{
    if n < 10 {
        String::from_str(digit(n))
    } else {
        let mut text = decimal(n / 10);
        let last = digit(n % 10);
        text.append(last);
        assert(text@ =~= decimal_text(n as nat));
        text
    }
}

/// Appends one cell of `color` to `html`.
fn push_cell(html: &mut String, color: usize)
    ensures
        final(html)@ == old(html)@ + cell_html(color as nat),
{
    let number = decimal(color);
    html.append("<div class=\"cell color-");
    html.append(number.as_str());
    html.append("\"></div>");
    assert(html@ =~= old(html)@ + cell_html(color as nat));
}

/// The grid `data` as a fragment of a page, laid out in `columns` columns.
pub fn create_grid_html(data: &[u8], columns: usize) -> (html: String)
    ensures
        html@ == grid_html(data@, columns as nat),
{
    let mut html = String::from_str("<div class=\"grid\" style=\"grid-template-columns: repeat(");
    html.append(decimal(columns).as_str());
    html.append(", ");
    html.append(decimal(CELL_SIZE).as_str());
    html.append("px);\">");
    let ghost opening = html@;
    let mut i: usize = 0;
    assert(html@ =~= opening + cells_html(data@.take(0)));
    while i < data.len()
        invariant
            i <= data@.len(),
            html@ == opening + cells_html(data@.take(i as int)),
        decreases data@.len() - i,
    {
        assert(data@.take(i + 1).drop_last() == data@.take(i as int));
        push_cell(&mut html, data[i] as usize);
        assert(html@ =~= opening + cells_html(data@.take(i + 1)));
        i += 1;
    }
    assert(data@.take(data@.len() as int) == data@);
    html.append("</div>");
    assert(html@ =~= grid_html(data@, columns as nat));
    html
}

/// Whether a flag of `palette` is set.
fn any_set(palette: &[bool]) -> (any: bool)
    ensures
        any == palette@.contains(true),
{
    let mut i: usize = 0;
    while i < palette.len()
        invariant
            i <= palette@.len(),
            forall|k: int| 0 <= k < i ==> !palette@[k],
        decreases palette@.len() - i,
    {
        if palette[i] {
            return true;
        }
        i += 1;
    }
    false
}

/// The colors of `palette` under the heading `text`, as a fragment of a
/// page; the empty text for a palette without a color.
pub fn create_palette_html(text: &str, palette: &[bool]) -> (html: String)
    ensures
        html@ == palette_html(text@, palette@),
{
    if !any_set(palette) {
        return String::new();
    }
    let mut html = String::from_str("<div>");
    html.append(text);
    html.append(":</div><div class=\"palette\">");
    let ghost opening = html@;
    let mut i: usize = 0;
    assert(html@ =~= opening + swatches_html(palette@.take(0)));
    while i < palette.len()
        invariant
            i <= palette@.len(),
            html@ == opening + swatches_html(palette@.take(i as int)),
        decreases palette@.len() - i,
    {
        assert(palette@.take(i + 1).drop_last() == palette@.take(i as int));
        if palette[i] {
            push_cell(&mut html, i);
        }
        assert(html@ =~= opening + swatches_html(palette@.take(i + 1)));
        i += 1;
    }
    assert(palette@.take(palette@.len() as int) == palette@);
    html.append("</div>");
    assert(html@ =~= palette_html(text@, palette@));
    html
}

} // verus!
